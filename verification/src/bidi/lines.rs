//! Reconstruction of layout lines whose characters keep their source elements.
use vstd::prelude::*;
use crate::bidi::inverse::{inverse_spans, inverse_spans_spec, lemma_inverse_spans_ids};
use crate::bidi::protect::{SourceScalar, chars_of_scalars};
use crate::bidi::scripts::{
    BaseDirection, ReconstructionConfidence, base_direction_of, contains_compact_mixed_token,
    contains_rtl_script, has_compact_mixed, has_rtl_script, is_ltr_content, is_rtl_script,
    select_base_direction, spec_is_ltr_content, spec_is_rtl_script,
};
use crate::bidi::spans::{
    lemma_append_spans_ids, lemma_normalized_spans_ids, lemma_push_span_ids, lemma_push_visits_text,
    lemma_sub_source_ids, scalar_visits, source_ids, span_ids,
};
use crate::bidi::scripts::{has_presentation_form, spec_is_arabic_presentation_form};
use crate::bidi::text::lemma_normalize_plain;
use crate::bidi::spans::{
    ReconstructedLine, ReconstructedSpan, SpanSeq, append_spans, append_spans_spec,
    legacy_source_spans, legacy_spans_from, next_newline, normalized_source_spans,
    normalized_spans_spec, push_span, push_span_spec, spans_text, spans_view, string_from_chars,
};
use crate::bidi::unicode::{char_is_whitespace, unicode_white_space};

verus! {

/// The end of the run of characters that share the whitespace-ness `ws`.
pub open spec fn ws_run_end(s: Seq<SourceScalar>, k: int, ws: bool) -> int
    decreases s.len() - k,
{
    if k < 0 || k >= s.len() {
        s.len() as int
    } else if unicode_white_space(s[k].ch) != ws {
        k
    } else {
        ws_run_end(s, k + 1, ws)
    }
}

/// The first right-to-left character at or after `k`, or the length.
pub open spec fn first_rtl(s: Seq<SourceScalar>, k: int) -> int
    decreases s.len() - k,
{
    if k < 0 || k >= s.len() {
        s.len() as int
    } else if spec_is_rtl_script(s[k].ch) {
        k
    } else {
        first_rtl(s, k + 1)
    }
}

pub open spec fn ltr_content_before(s: Seq<SourceScalar>, k: int) -> bool {
    exists|j: int| 0 <= j < k && spec_is_ltr_content(#[trigger] s[j].ch)
}

/// Appends one run of a left-to-right line: whitespace and runs without
/// right-to-left script are kept in stored order; a run that starts with
/// left-to-right content keeps that prefix and reorders the rest as
/// right-to-left; any other run is reordered at its own base direction.
pub open spec fn ltr_segment_spec(spans: SpanSeq, seg: Seq<SourceScalar>) -> Option<SpanSeq> {
    let ws = unicode_white_space(seg[0].ch);
    if ws || !has_rtl_script(chars_of_scalars(seg)) {
        Some(append_spans_spec(spans, normalized_spans_spec(seg)))
    } else {
        let f = first_rtl(seg, 0);
        if ltr_content_before(seg, f) {
            match inverse_spans_spec(seg.skip(f), BaseDirection::Rtl) {
                None => None,
                Some(sp) => Some(
                    append_spans_spec(append_spans_spec(spans, normalized_spans_spec(seg.take(f))), sp),
                ),
            }
        } else {
            match inverse_spans_spec(seg, base_direction_of(chars_of_scalars(seg)).0) {
                None => None,
                Some(sp) => Some(append_spans_spec(spans, sp)),
            }
        }
    }
}

/// The runs of a left-to-right line from index `start` on.
pub open spec fn ltr_segments_from(spans: SpanSeq, s: Seq<SourceScalar>, start: int) -> Option<
    SpanSeq,
>
    decreases s.len() - start,
{
    if start < 0 || start >= s.len() {
        Some(spans)
    } else {
        let end = ws_run_end(s, start, unicode_white_space(s[start].ch));
        if end <= start || end > s.len() {
            Some(spans)
        } else {
            match ltr_segment_spec(spans, s.subrange(start, end)) {
                None => None,
                Some(next) => ltr_segments_from(next, s, end),
            }
        }
    }
}

/// A newline-free line reconstructed at base direction `direction`.
pub open spec fn inverse_segment_spec(s: Seq<SourceScalar>, direction: BaseDirection) -> Option<
    SpanSeq,
> {
    if direction != BaseDirection::Ltr {
        inverse_spans_spec(s, direction)
    } else {
        ltr_segments_from(Seq::empty(), s, 0)
    }
}

/// Every line from index `start` on reconstructed at base direction
/// `direction`, each line feed kept where it was.
pub open spec fn inverse_lines_from(
    spans: SpanSeq,
    s: Seq<SourceScalar>,
    start: int,
    direction: BaseDirection,
) -> Option<SpanSeq>
    decreases s.len() - start,
{
    if start < 0 || start > s.len() {
        Some(spans)
    } else {
        let k = next_newline(s, start);
        if k < start || k >= s.len() {
            match inverse_segment_spec(s.subrange(start, s.len() as int), direction) {
                None => None,
                Some(sp) => Some(append_spans_spec(spans, sp)),
            }
        } else {
            match inverse_segment_spec(s.subrange(start, k), direction) {
                None => None,
                Some(sp) => inverse_lines_from(
                    push_span_spec(append_spans_spec(spans, sp), s[k].source_index, seq!['\n']),
                    s,
                    k + 1,
                    direction,
                ),
            }
        }
    }
}

proof fn lemma_first_rtl_bounds(s: Seq<SourceScalar>, k: int)
    requires
        0 <= k <= s.len(),
    ensures
        k <= first_rtl(s, k) <= s.len(),
    decreases s.len() - k,
{
    if k < s.len() && !spec_is_rtl_script(s[k].ch) {
        lemma_first_rtl_bounds(s, k + 1);
    }
}

proof fn lemma_append_within(spans: SpanSeq, more: SpanSeq, ids: Set<usize>)
    requires
        span_ids(spans).subset_of(ids),
        span_ids(more).subset_of(ids),
    ensures
        span_ids(append_spans_spec(spans, more)).subset_of(ids),
{
    lemma_append_spans_ids(spans, more);
}

proof fn lemma_ltr_segment_ids(spans: SpanSeq, seg: Seq<SourceScalar>, ids: Set<usize>)
    requires
        seg.len() > 0,
        span_ids(spans).subset_of(ids),
        source_ids(seg).subset_of(ids),
    ensures
        ltr_segment_spec(spans, seg) matches Some(r) ==> span_ids(r).subset_of(ids),
{
    let ws = unicode_white_space(seg[0].ch);
    if ws || !has_rtl_script(chars_of_scalars(seg)) {
        lemma_normalized_spans_ids(seg);
        lemma_append_within(spans, normalized_spans_spec(seg), ids);
    } else {
        let f = first_rtl(seg, 0);
        lemma_first_rtl_bounds(seg, 0);
        if ltr_content_before(seg, f) {
            lemma_inverse_spans_ids(seg.skip(f), BaseDirection::Rtl);
            lemma_sub_source_ids(seg, seg.skip(f), f);
            lemma_sub_source_ids(seg, seg.take(f), 0);
            lemma_normalized_spans_ids(seg.take(f));
            lemma_append_within(spans, normalized_spans_spec(seg.take(f)), ids);
            if let Some(sp) = inverse_spans_spec(seg.skip(f), BaseDirection::Rtl) {
                lemma_append_within(append_spans_spec(spans, normalized_spans_spec(seg.take(f))), sp, ids);
            }
        } else {
            let d = base_direction_of(chars_of_scalars(seg)).0;
            lemma_inverse_spans_ids(seg, d);
            if let Some(sp) = inverse_spans_spec(seg, d) {
                lemma_append_within(spans, sp, ids);
            }
        }
    }
}

proof fn lemma_ltr_segments_ids(spans: SpanSeq, s: Seq<SourceScalar>, start: int, ids: Set<usize>)
    requires
        span_ids(spans).subset_of(ids),
        source_ids(s).subset_of(ids),
    ensures
        ltr_segments_from(spans, s, start) matches Some(r) ==> span_ids(r).subset_of(ids),
    decreases s.len() - start,
{
    if 0 <= start < s.len() {
        let end = ws_run_end(s, start, unicode_white_space(s[start].ch));
        if start < end <= s.len() {
            let seg = s.subrange(start, end);
            lemma_sub_source_ids(s, seg, start);
            lemma_ltr_segment_ids(spans, seg, ids);
            if let Some(next) = ltr_segment_spec(spans, seg) {
                lemma_ltr_segments_ids(next, s, end, ids);
            }
        }
    }
}

proof fn lemma_inverse_segment_ids(s: Seq<SourceScalar>, direction: BaseDirection)
    ensures
        inverse_segment_spec(s, direction) matches Some(r) ==> span_ids(r).subset_of(source_ids(s)),
{
    if direction != BaseDirection::Ltr {
        lemma_inverse_spans_ids(s, direction);
    } else {
        assert(span_ids(Seq::<(usize, Seq<char>)>::empty()) =~= Set::<usize>::empty());
        lemma_ltr_segments_ids(Seq::empty(), s, 0, source_ids(s));
    }
}

proof fn lemma_inverse_lines_ids(spans: SpanSeq, s: Seq<SourceScalar>, start: int, direction: BaseDirection)
    requires
        span_ids(spans).subset_of(source_ids(s)),
    ensures
        inverse_lines_from(spans, s, start, direction) matches Some(r) ==> span_ids(r).subset_of(source_ids(s)),
    decreases s.len() - start,
{
    if 0 <= start <= s.len() {
        let k = next_newline(s, start);
        if k < start || k >= s.len() {
            let seg = s.subrange(start, s.len() as int);
            lemma_sub_source_ids(s, seg, start);
            lemma_inverse_segment_ids(seg, direction);
            if let Some(sp) = inverse_segment_spec(seg, direction) {
                lemma_append_within(spans, sp, source_ids(s));
            }
        } else {
            let seg = s.subrange(start, k);
            lemma_sub_source_ids(s, seg, start);
            lemma_inverse_segment_ids(seg, direction);
            if let Some(sp) = inverse_segment_spec(seg, direction) {
                lemma_append_within(spans, sp, source_ids(s));
                let joined = append_spans_spec(spans, sp);
                lemma_push_span_ids(joined, s[k].source_index, seq!['\n']);
                assert(source_ids(s).contains(s[k].source_index));
                lemma_inverse_lines_ids(push_span_spec(joined, s[k].source_index, seq!['\n']), s, k + 1, direction);
            }
        }
    }
}

/// A line without right-to-left script is kept as its source text.
proof fn lemma_plain_source_text(s: Seq<SourceScalar>)
    requires
        !has_rtl_script(chars_of_scalars(s)),
    ensures
        spans_text(normalized_spans_spec(s)) == chars_of_scalars(s),
{
    let chars = chars_of_scalars(s);
    lemma_push_visits_text(Seq::empty(), scalar_visits(s));
    assert(scalar_visits(s).map_values(|v: (usize, char)| v.1) =~= chars);
    assert(spans_text(Seq::<(usize, Seq<char>)>::empty()) =~= Seq::<char>::empty());
    assert(!has_presentation_form(chars)) by {
        if has_presentation_form(chars) {
            let i = choose|i: int| 0 <= i < chars.len() && spec_is_arabic_presentation_form(#[trigger] chars[i]);
            assert(spec_is_rtl_script(chars[i]));
        }
    }
    lemma_normalize_plain(chars);
    assert(Seq::<char>::empty() + chars =~= chars);
}

/// The reconstructed spans of a layout line: unchanged (only normalized) when
/// it has no right-to-left script or is already stored in logical order; in
/// the default bidi display order when its direction is ambiguous and no
/// token mixes scripts; otherwise inversely reordered line by line, falling
/// back to stored order when the reordering cannot be mapped back.
pub open spec fn reconstruct_spans_spec(raw: Seq<char>, s: Seq<SourceScalar>, logical: bool) -> SpanSeq {
    let chars = chars_of_scalars(s);
    let (direction, confidence) = base_direction_of(chars);
    if !has_rtl_script(raw) || logical {
        normalized_spans_spec(s)
    } else if confidence == ReconstructionConfidence::Ambiguous && !has_compact_mixed(chars) {
        legacy_spans_from(Seq::empty(), s, 0)
    } else {
        match inverse_lines_from(Seq::empty(), s, 0, direction) {
            Some(sp) => sp,
            None => normalized_spans_spec(s),
        }
    }
}

pub fn scalar_chars(source: &[SourceScalar]) -> (r: Vec<char>)
    ensures
        r@ == chars_of_scalars(source@),
{
    let mut v: Vec<char> = Vec::new();
    let mut i: usize = 0;
    while i < source.len()
        invariant
            i <= source.len(),
            v@ == chars_of_scalars(source@).take(i as int),
        decreases source.len() - i,
    {
        v.push(source[i].ch);
        i += 1;
        assert(v@ =~= chars_of_scalars(source@).take(i as int));
    }
    assert(v@ =~= chars_of_scalars(source@));
    v
}

fn find_ws_run_end(source: &[SourceScalar], start: usize, ws: bool) -> (r: usize)
    requires
        start <= source.len(),
    ensures
        r == ws_run_end(source@, start as int, ws),
        start <= r <= source.len(),
        r < source.len() ==> unicode_white_space(source@[r as int].ch) != ws,
{
    let mut k = start;
    while k < source.len()
        invariant
            start <= k <= source.len(),
            ws_run_end(source@, start as int, ws) == ws_run_end(source@, k as int, ws),
        decreases source.len() - k,
    {
        if char_is_whitespace(source[k].ch) != ws {
            return k;
        }
        k += 1;
    }
    k
}

fn find_first_rtl(source: &[SourceScalar]) -> (r: usize)
    ensures
        r == first_rtl(source@, 0),
        r <= source.len(),
        forall|j: int| 0 <= j < r ==> !spec_is_rtl_script(#[trigger] source@[j].ch),
{
    let mut k: usize = 0;
    while k < source.len()
        invariant
            k <= source.len(),
            first_rtl(source@, 0) == first_rtl(source@, k as int),
            forall|j: int| 0 <= j < k ==> !spec_is_rtl_script(#[trigger] source@[j].ch),
        decreases source.len() - k,
    {
        if is_rtl_script(source[k].ch) {
            return k;
        }
        k += 1;
    }
    k
}

fn any_ltr_content(source: &[SourceScalar], end: usize) -> (r: bool)
    requires
        end <= source.len(),
    ensures
        r == ltr_content_before(source@, end as int),
{
    let mut k: usize = 0;
    while k < end
        invariant
            k <= end <= source.len(),
            forall|j: int| 0 <= j < k ==> !spec_is_ltr_content(#[trigger] source@[j].ch),
        decreases end - k,
    {
        if is_ltr_content(source[k].ch) {
            return true;
        }
        k += 1;
    }
    false
}

/// Reconstructs one newline-free line at base direction `direction`.
pub fn inverse_source_segment(source: &[SourceScalar], direction: BaseDirection) -> (r: Option<
    Vec<ReconstructedSpan>,
>)
    ensures
        match inverse_segment_spec(source@, direction) {
            Some(v) => r is Some && spans_view(r->0@) == v,
            None => r is None,
        },
{
    if direction != BaseDirection::Ltr {
        return inverse_spans(source, direction);
    }
    let mut output: Vec<ReconstructedSpan> = Vec::new();
    assert(spans_view(output@) =~= Seq::empty());
    let mut start: usize = 0;
    while start < source.len()
        invariant
            start <= source.len(),
            direction == BaseDirection::Ltr,
            ltr_segments_from(Seq::empty(), source@, 0) == ltr_segments_from(
                spans_view(output@),
                source@,
                start as int,
            ),
        decreases source.len() - start,
    {
        let whitespace = char_is_whitespace(source[start].ch);
        let end = find_ws_run_end(source, start, whitespace);
        let segment = &source[start..end];
        assert(segment@ == source@.subrange(start as int, end as int));
        assert(segment@[0] == source@[start as int]);
        let seg_chars = scalar_chars(segment);
        if whitespace || !contains_rtl_script(seg_chars.as_slice()) {
            append_spans(&mut output, normalized_source_spans(segment));
        } else {
            let first = find_first_rtl(segment);
            if any_ltr_content(segment, first) {
                let head = &segment[0..first];
                let tail = &segment[first..segment.len()];
                assert(head@ =~= segment@.take(first as int));
                assert(tail@ =~= segment@.skip(first as int));
                let reordered = match inverse_spans(tail, BaseDirection::Rtl) {
                    Some(sp) => sp,
                    None => return None,
                };
                append_spans(&mut output, normalized_source_spans(head));
                append_spans(&mut output, reordered);
            } else {
                let (segment_direction, _) = select_base_direction(seg_chars.as_slice());
                let reordered = match inverse_spans(segment, segment_direction) {
                    Some(sp) => sp,
                    None => return None,
                };
                append_spans(&mut output, reordered);
            }
        }
        start = end;
    }
    Some(output)
}

/// Reconstructs every line of `source` at base direction `direction`.
pub fn inverse_source_lines(source: &[SourceScalar], direction: BaseDirection) -> (r: Option<
    Vec<ReconstructedSpan>,
>)
    ensures
        match inverse_lines_from(Seq::empty(), source@, 0, direction) {
            Some(v) => r is Some && spans_view(r->0@) == v,
            None => r is None,
        },
{
    let mut output: Vec<ReconstructedSpan> = Vec::new();
    assert(spans_view(output@) =~= Seq::empty());
    let mut start: usize = 0;
    let mut index: usize = 0;
    while index < source.len()
        invariant
            start <= index <= source.len(),
            inverse_lines_from(Seq::empty(), source@, 0, direction) == inverse_lines_from(
                spans_view(output@),
                source@,
                start as int,
                direction,
            ),
            next_newline(source@, start as int) == next_newline(source@, index as int),
        decreases source.len() - index,
    {
        if source[index].ch != '\n' {
            index += 1;
            continue;
        }
        let line = &source[start..index];
        assert(line@ == source@.subrange(start as int, index as int));
        let spans = match inverse_source_segment(line, direction) {
            Some(sp) => sp,
            None => return None,
        };
        append_spans(&mut output, spans);
        let newline = "\n".to_owned();
        proof {
            reveal_strlit("\n");
        }
        assert(newline@ =~= seq!['\n']);
        push_span(&mut output, source[index].source_index, newline);
        index += 1;
        start = index;
    }
    let line = &source[start..source.len()];
    assert(line@ == source@.subrange(start as int, source@.len() as int));
    let spans = match inverse_source_segment(line, direction) {
        Some(sp) => sp,
        None => return None,
    };
    append_spans(&mut output, spans);
    Some(output)
}

/// The text of all spans, concatenated.
pub fn spans_joined_text(spans: &Vec<ReconstructedSpan>) -> (r: String)
    ensures
        r@ == spans_text(spans_view(spans@)),
{
    let mut text = String::new();
    let mut i: usize = 0;
    while i < spans.len()
        invariant
            i <= spans.len(),
            text@ == spans_text(spans_view(spans@).take(i as int)),
        decreases spans.len() - i,
    {
        assert(spans_view(spans@).take(i + 1).drop_last() =~= spans_view(spans@).take(i as int));
        text.append(spans[i].text.as_str());
        i += 1;
    }
    assert(spans_view(spans@).take(spans.len() as int) =~= spans_view(spans@));
    text
}

/// Reconstructs the logical order of a layout line given as its raw text and
/// its source characters; `already_logical` says that the page geometry shows
/// the line is stored in logical order.
pub fn reconstruct_source(raw_text: String, source: Vec<SourceScalar>, already_logical: bool) -> (r:
    ReconstructedLine)
    ensures
        r.raw_text@ == raw_text@,
        spans_view(r.spans@) == reconstruct_spans_spec(raw_text@, source@, already_logical),
        r.text@ == spans_text(spans_view(r.spans@)),
        (r.base_direction, r.confidence) == base_direction_of(chars_of_scalars(source@)),
        span_ids(spans_view(r.spans@)).subset_of(source_ids(source@)),
        raw_text@ == chars_of_scalars(source@) && !has_rtl_script(raw_text@) ==> r.text@ == raw_text@,
{
    proof {
        if raw_text@ == chars_of_scalars(source@) && !has_rtl_script(raw_text@) {
            lemma_plain_source_text(source@);
        }
        lemma_normalized_spans_ids(source@);
        assert(span_ids(Seq::<(usize, Seq<char>)>::empty()) =~= Set::<usize>::empty());
        lemma_inverse_lines_ids(Seq::empty(), source@, 0, base_direction_of(chars_of_scalars(source@)).0);
    }
    let chars = scalar_chars(source.as_slice());
    let (base_direction, confidence) = select_base_direction(chars.as_slice());
    let raw_chars = crate::bidi::spans::chars_of_string(&raw_text);
    let spans = if !contains_rtl_script(raw_chars.as_slice()) || already_logical {
        normalized_source_spans(source.as_slice())
    } else if confidence == ReconstructionConfidence::Ambiguous && !contains_compact_mixed_token(
        chars.as_slice(),
    ) {
        legacy_source_spans(source.as_slice())
    } else {
        match inverse_source_lines(source.as_slice(), base_direction) {
            Some(sp) => sp,
            None => normalized_source_spans(source.as_slice()),
        }
    };
    let text = spans_joined_text(&spans);
    ReconstructedLine { raw_text, text, spans, base_direction, confidence }
}

/// The raw text of a layout line whose elements have the texts `texts`, and
/// its characters, each tied to the index of its element.
pub fn source_scalars(texts: &Vec<String>) -> (r: (String, Vec<SourceScalar>))
    ensures
        r.0@ == concat_texts(texts@.map_values(|t: String| t@)),
        r.1@ == element_scalars(texts@.map_values(|t: String| t@)),
{
    let ghost all = texts@.map_values(|t: String| t@);
    let mut raw_text = String::new();
    let mut source: Vec<SourceScalar> = Vec::new();
    let mut i: usize = 0;
    while i < texts.len()
        invariant
            i <= texts.len(),
            all == texts@.map_values(|t: String| t@),
            raw_text@ == concat_texts(all.take(i as int)),
            source@ == element_scalars(all.take(i as int)),
        decreases texts.len() - i,
    {
        assert(all.take(i + 1).drop_last() =~= all.take(i as int));
        let chars = crate::bidi::spans::chars_of_string(&texts[i]);
        raw_text.append(texts[i].as_str());
        let ghost before = source@;
        let mut j: usize = 0;
        while j < chars.len()
            invariant
                j <= chars.len(),
                source@ == before + chars@.take(j as int).map_values(|c: char| crate::bidi::protect::scalar_at(c, i as int)),
            decreases chars.len() - j,
        {
            source.push(SourceScalar { ch: chars[j], source_index: i });
            assert(source@[source@.len() - 1] == crate::bidi::protect::scalar_at(chars@[j as int], i as int));
            j += 1;
            assert(source@ =~= before + chars@.take(j as int).map_values(|c: char| crate::bidi::protect::scalar_at(c, i as int)));
        }
        assert(chars@.take(chars.len() as int) =~= chars@);
        i += 1;
    }
    assert(all.take(texts.len() as int) =~= all);
    (raw_text, source)
}

/// The texts, concatenated.
pub open spec fn concat_texts(texts: Seq<Seq<char>>) -> Seq<char>
    decreases texts.len(),
{
    if texts.len() == 0 {
        Seq::empty()
    } else {
        concat_texts(texts.drop_last()) + texts.last()
    }
}

/// The characters of the texts, each tied to the index of its text.
pub open spec fn element_scalars(texts: Seq<Seq<char>>) -> Seq<SourceScalar>
    decreases texts.len(),
{
    if texts.len() == 0 {
        Seq::empty()
    } else {
        element_scalars(texts.drop_last()) + texts.last().map_values(
            |c: char| crate::bidi::protect::scalar_at(c, texts.len() - 1),
        )
    }
}

} // verus!
