//! Reconstructed text tied to its source elements.
use vstd::prelude::*;
use crate::bidi::protect::SourceScalar;
use crate::bidi::scripts::{
    BaseDirection, ReconstructionConfidence, is_arabic_presentation_form,
    spec_is_arabic_presentation_form,
};
use crate::bidi::unicode::{bidi_char_order, nfkc, nfkc_char, string_push, unicode_bidi_char_order};

verus! {

/// Logical text that came from one source layout element.
#[derive(Debug, Clone, PartialEq, Eq)]
pub struct ReconstructedSpan {
    pub source_index: usize,
    pub text: String,
}

/// One logical line result used by all output surfaces.
#[derive(Debug, Clone, PartialEq, Eq)]
pub struct ReconstructedLine {
    pub raw_text: String,
    pub text: String,
    pub spans: Vec<ReconstructedSpan>,
    pub base_direction: BaseDirection,
    pub confidence: ReconstructionConfidence,
}

/// Spans as (source index, text) pairs.
pub type SpanSeq = Seq<(usize, Seq<char>)>;

pub open spec fn span_view(span: ReconstructedSpan) -> (usize, Seq<char>) {
    (span.source_index, span.text@)
}

pub open spec fn spans_view(spans: Seq<ReconstructedSpan>) -> SpanSeq {
    spans.map_values(|span: ReconstructedSpan| span_view(span))
}

/// The text of all spans, in order.
pub open spec fn spans_text(spans: SpanSeq) -> Seq<char>
    decreases spans.len(),
{
    if spans.len() == 0 {
        Seq::empty()
    } else {
        spans_text(spans.drop_last()) + spans.last().1
    }
}

/// Appends `text` from source `index`: it joins the last span when that span
/// has the same source, else it starts a new span.
pub open spec fn push_span_spec(spans: SpanSeq, index: usize, text: Seq<char>) -> SpanSeq {
    if spans.len() > 0 && spans.last().0 == index {
        spans.drop_last().push((index, spans.last().1 + text))
    } else {
        spans.push((index, text))
    }
}

/// A character as it is output: Arabic presentation forms are replaced by
/// their NFKC form, every other character is kept.
pub open spec fn normalize_char(c: char) -> Seq<char> {
    if spec_is_arabic_presentation_form(c) {
        nfkc(seq![c])
    } else {
        seq![c]
    }
}

/// Appends the output form of `c` from source `index`.
pub open spec fn push_normalized_spec(spans: SpanSeq, index: usize, c: char) -> SpanSeq {
    let n = normalize_char(c);
    if n.len() == 0 {
        spans
    } else {
        push_span_spec(spans, index, n)
    }
}

/// Appends the output form of each visited (source index, character) pair.
pub open spec fn push_visits(spans: SpanSeq, visits: Seq<(usize, char)>) -> SpanSeq
    decreases visits.len(),
{
    if visits.len() == 0 {
        spans
    } else {
        let prev = push_visits(spans, visits.drop_last());
        push_normalized_spec(prev, visits.last().0, visits.last().1)
    }
}

pub open spec fn scalar_visits(s: Seq<SourceScalar>) -> Seq<(usize, char)> {
    s.map_values(|x: SourceScalar| (x.source_index, x.ch))
}

/// The source in its stored order, normalized, one span per run of
/// characters from one element.
pub open spec fn normalized_spans_spec(s: Seq<SourceScalar>) -> SpanSeq {
    push_visits(Seq::empty(), scalar_visits(s))
}

/// The output form of every character of `s`, concatenated.
pub open spec fn normalize_chars(s: Seq<char>) -> Seq<char>
    decreases s.len(),
{
    if s.len() == 0 {
        Seq::empty()
    } else {
        normalize_chars(s.drop_last()) + normalize_char(s.last())
    }
}

/// The source elements that some spans come from.
pub open spec fn span_ids(spans: SpanSeq) -> Set<usize> {
    Set::new(|x: usize| exists|i: int| 0 <= i < spans.len() && spans[i].0 == x)
}

/// The source elements of some source characters.
pub open spec fn source_ids(s: Seq<SourceScalar>) -> Set<usize> {
    Set::new(|x: usize| exists|k: int| 0 <= k < s.len() && s[k].source_index == x)
}

/// The source elements of some visits.
pub open spec fn visit_ids(v: Seq<(usize, char)>) -> Set<usize> {
    Set::new(|x: usize| exists|j: int| 0 <= j < v.len() && v[j].0 == x)
}

/// A pushed span comes from the pushed source or is one of the spans before.
pub proof fn lemma_push_span_ids(spans: SpanSeq, index: usize, text: Seq<char>)
    ensures
        span_ids(push_span_spec(spans, index, text)).subset_of(span_ids(spans).insert(index)),
{
    let r = push_span_spec(spans, index, text);
    assert forall|x: usize| span_ids(r).contains(x) implies span_ids(spans).insert(index).contains(x) by {
        let i = choose|i: int| 0 <= i < r.len() && r[i].0 == x;
        if x != index {
            assert(spans[i] == r[i]);
        }
    }
}

/// The spans after some visits come from the spans before or the visits.
pub proof fn lemma_push_visits_ids(spans: SpanSeq, visits: Seq<(usize, char)>)
    ensures
        span_ids(push_visits(spans, visits)).subset_of(span_ids(spans).union(visit_ids(visits))),
    decreases visits.len(),
{
    if visits.len() > 0 {
        let prev = push_visits(spans, visits.drop_last());
        lemma_push_visits_ids(spans, visits.drop_last());
        lemma_push_span_ids(prev, visits.last().0, normalize_char(visits.last().1));
        assert forall|x: usize| visit_ids(visits.drop_last()).contains(x) implies visit_ids(visits).contains(x) by {
            let j = choose|j: int| 0 <= j < visits.drop_last().len() && visits.drop_last()[j].0 == x;
            assert(visits[j] == visits.drop_last()[j]);
        }
        assert(visits[visits.len() - 1] == visits.last());
    }
}

/// Appended spans come from either sequence of spans.
pub proof fn lemma_append_spans_ids(spans: SpanSeq, more: SpanSeq)
    ensures
        span_ids(append_spans_spec(spans, more)).subset_of(span_ids(spans).union(span_ids(more))),
    decreases more.len(),
{
    if more.len() > 0 {
        lemma_append_spans_ids(spans, more.drop_last());
        lemma_push_span_ids(append_spans_spec(spans, more.drop_last()), more.last().0, more.last().1);
        assert forall|x: usize| span_ids(more.drop_last()).contains(x) implies span_ids(more).contains(x) by {
            let j = choose|j: int| 0 <= j < more.drop_last().len() && more.drop_last()[j].0 == x;
            assert(more[j] == more.drop_last()[j]);
        }
        assert(more[more.len() - 1] == more.last());
    }
}

/// A run of consecutive source characters comes from the source's elements.
pub proof fn lemma_sub_source_ids(s: Seq<SourceScalar>, t: Seq<SourceScalar>, offset: int)
    requires
        0 <= offset,
        offset + t.len() <= s.len(),
        forall|j: int| 0 <= j < t.len() ==> t[j] == s[offset + j],
    ensures
        source_ids(t).subset_of(source_ids(s)),
{
    assert forall|x: usize| source_ids(t).contains(x) implies source_ids(s).contains(x) by {
        let j = choose|j: int| 0 <= j < t.len() && t[j].source_index == x;
        assert(s[offset + j] == t[j]);
    }
}

/// Normalized spans come from the source's elements.
pub proof fn lemma_normalized_spans_ids(s: Seq<SourceScalar>)
    ensures
        span_ids(normalized_spans_spec(s)).subset_of(source_ids(s)),
{
    lemma_push_visits_ids(Seq::empty(), scalar_visits(s));
    assert forall|x: usize| visit_ids(scalar_visits(s)).contains(x) implies source_ids(s).contains(x) by {
        let j = choose|j: int| 0 <= j < scalar_visits(s).len() && scalar_visits(s)[j].0 == x;
        assert(s[j].source_index == x);
    }
    assert(span_ids(Seq::<(usize, Seq<char>)>::empty()) =~= Set::<usize>::empty());
}

pub proof fn lemma_push_span_text(spans: SpanSeq, index: usize, text: Seq<char>)
    ensures
        spans_text(push_span_spec(spans, index, text)) == spans_text(spans) + text,
{
    if spans.len() > 0 && spans.last().0 == index {
        let r = spans.drop_last().push((index, spans.last().1 + text));
        assert(r.drop_last() =~= spans.drop_last());
        assert(spans_text(spans) == spans_text(spans.drop_last()) + spans.last().1);
        assert(spans_text(r) =~= spans_text(spans) + text);
    } else {
        let r = spans.push((index, text));
        assert(r.drop_last() =~= spans);
    }
}

/// The text of the spans that some visits produce is the output form of the
/// visited characters.
pub proof fn lemma_push_visits_text(spans: SpanSeq, visits: Seq<(usize, char)>)
    ensures
        spans_text(push_visits(spans, visits)) == spans_text(spans) + normalize_chars(
            visits.map_values(|v: (usize, char)| v.1),
        ),
    decreases visits.len(),
{
    let chars = visits.map_values(|v: (usize, char)| v.1);
    if visits.len() == 0 {
        assert(chars =~= Seq::<char>::empty());
        assert(spans_text(spans) + Seq::<char>::empty() =~= spans_text(spans));
    } else {
        lemma_push_visits_text(spans, visits.drop_last());
        let prev = push_visits(spans, visits.drop_last());
        assert(chars.drop_last() =~= visits.drop_last().map_values(|v: (usize, char)| v.1));
        let n = normalize_char(visits.last().1);
        if n.len() > 0 {
            lemma_push_span_text(prev, visits.last().0, n);
        } else {
            assert(spans_text(prev) + n =~= spans_text(prev));
        }
        assert(spans_text(spans) + normalize_chars(chars.drop_last()) + n =~= spans_text(spans)
            + normalize_chars(chars));
    }
}

/// The output form of `ch`.
pub fn normalized_char(ch: char) -> (r: Vec<char>)
    ensures
        r@ == normalize_char(ch),
{
    if is_arabic_presentation_form(ch) {
        nfkc_char(ch)
    } else {
        let mut v = Vec::new();
        v.push(ch);
        v
    }
}

pub fn string_from_chars(chars: &Vec<char>) -> (s: String)
    ensures
        s@ == chars@,
{
    let mut s = String::new();
    let mut i: usize = 0;
    while i < chars.len()
        invariant
            i <= chars.len(),
            s@ == chars@.take(i as int),
        decreases chars.len() - i,
    {
        string_push(&mut s, chars[i]);
        i += 1;
        assert(s@ =~= chars@.take(i as int));
    }
    assert(chars@.take(chars.len() as int) =~= chars@);
    s
}

/// Appends `text` from source `source_index`, joining the last span when it
/// has the same source.
pub fn push_span(spans: &mut Vec<ReconstructedSpan>, source_index: usize, text: String)
    ensures
        spans_view(final(spans)@) == push_span_spec(spans_view(old(spans)@), source_index, text@),
{
    let n = spans.len();
    if n > 0 && spans[n - 1].source_index == source_index {
        let mut last = spans.pop().unwrap();
        last.text.append(text.as_str());
        spans.push(last);
        assert(spans_view(spans@) =~= push_span_spec(spans_view(old(spans)@), source_index, text@));
    } else {
        spans.push(ReconstructedSpan { source_index, text });
        assert(spans_view(spans@) =~= push_span_spec(spans_view(old(spans)@), source_index, text@));
    }
}

/// Appends the output form of `ch` from source `source_index`.
pub fn push_normalized_scalar(spans: &mut Vec<ReconstructedSpan>, source_index: usize, ch: char)
    ensures
        spans_view(final(spans)@) == push_normalized_spec(spans_view(old(spans)@), source_index, ch),
{
    let normalized = normalized_char(ch);
    if normalized.len() > 0 {
        push_span(spans, source_index, string_from_chars(&normalized));
    }
}

/// Appends the output form of `ch` to `output`.
pub fn push_normalized_char(output: &mut String, ch: char)
    ensures
        final(output)@ == old(output)@ + normalize_char(ch),
{
    let normalized = normalized_char(ch);
    output.append(string_from_chars(&normalized).as_str());
}

/// Appends each span of `more` to `output`, joining spans of one source.
pub fn append_spans(output: &mut Vec<ReconstructedSpan>, more: Vec<ReconstructedSpan>)
    ensures
        spans_view(final(output)@) == append_spans_spec(spans_view(old(output)@), spans_view(more@)),
{
    let ghost start = spans_view(output@);
    let ghost all = spans_view(more@);
    let mut i: usize = 0;
    while i < more.len()
        invariant
            i <= more.len(),
            all == spans_view(more@),
            spans_view(output@) == append_spans_spec(start, all.take(i as int)),
        decreases more.len() - i,
    {
        assert(all.take(i + 1).drop_last() =~= all.take(i as int));
        push_span(output, more[i].source_index, more[i].text.clone());
        i += 1;
    }
    assert(all.take(more.len() as int) =~= all);
}

/// Appends each span of `more` to `spans`, joining spans of one source.
pub open spec fn append_spans_spec(spans: SpanSeq, more: SpanSeq) -> SpanSeq
    decreases more.len(),
{
    if more.len() == 0 {
        spans
    } else {
        push_span_spec(append_spans_spec(spans, more.drop_last()), more.last().0, more.last().1)
    }
}

/// The source in stored order, normalized.
pub fn normalized_source_spans(source: &[SourceScalar]) -> (r: Vec<ReconstructedSpan>)
    ensures
        spans_view(r@) == normalized_spans_spec(source@),
{
    let mut spans: Vec<ReconstructedSpan> = Vec::new();
    let mut i: usize = 0;
    while i < source.len()
        invariant
            i <= source.len(),
            spans_view(spans@) == push_visits(Seq::empty(), scalar_visits(source@).take(i as int)),
        decreases source.len() - i,
    {
        assert(scalar_visits(source@).take(i + 1).drop_last() =~= scalar_visits(source@).take(
            i as int,
        ));
        push_normalized_scalar(&mut spans, source[i].source_index, source[i].ch);
        i += 1;
    }
    assert(scalar_visits(source@).take(source.len() as int) =~= scalar_visits(source@));
    spans
}

/// The visits of a segment in the visual order that `unicode-bidi` gives it.
pub open spec fn legacy_segment_visits(seg: Seq<SourceScalar>) -> Seq<(usize, char)> {
    let order = unicode_bidi_char_order(seg.map_values(|x: SourceScalar| x.ch));
    Seq::new(order.len(), |i: int| (seg[order[i] as int].source_index, seg[order[i] as int].ch))
}

/// Appends a newline-free segment in its default bidi display order.
pub open spec fn legacy_segment_spec(spans: SpanSeq, seg: Seq<SourceScalar>) -> SpanSeq {
    if seg.len() == 0 {
        spans
    } else {
        push_visits(spans, legacy_segment_visits(seg))
    }
}

/// The first line feed at or after `k`, or the length.
pub open spec fn next_newline(s: Seq<SourceScalar>, k: int) -> int
    decreases s.len() - k,
{
    if k < 0 || k >= s.len() {
        s.len() as int
    } else if s[k].ch == '\n' {
        k
    } else {
        next_newline(s, k + 1)
    }
}

/// The legacy order from index `start` on: each line in the default bidi
/// display order, each line feed kept where it was.
pub open spec fn legacy_spans_from(spans: SpanSeq, s: Seq<SourceScalar>, start: int) -> SpanSeq
    decreases s.len() - start,
{
    if start < 0 || start > s.len() {
        spans
    } else {
        let k = next_newline(s, start);
        if k < start || k >= s.len() {
            legacy_segment_spec(spans, s.subrange(start, s.len() as int))
        } else {
            let with_line = legacy_segment_spec(spans, s.subrange(start, k));
            legacy_spans_from(push_span_spec(with_line, s[k].source_index, seq!['\n']), s, k + 1)
        }
    }
}

pub fn append_legacy_segment(output: &mut Vec<ReconstructedSpan>, source: &[SourceScalar])
    ensures
        spans_view(final(output)@) == legacy_segment_spec(spans_view(old(output)@), source@),
        span_ids(spans_view(final(output)@)).subset_of(span_ids(spans_view(old(output)@)).union(
            source_ids(source@),
        )),
{
    if source.len() == 0 {
        return;
    }
    let mut text: Vec<char> = Vec::new();
    let mut i: usize = 0;
    while i < source.len()
        invariant
            i <= source.len(),
            text@ == source@.map_values(|x: SourceScalar| x.ch).take(i as int),
        decreases source.len() - i,
    {
        text.push(source[i].ch);
        i += 1;
        assert(text@ =~= source@.map_values(|x: SourceScalar| x.ch).take(i as int));
    }
    assert(text@ =~= source@.map_values(|x: SourceScalar| x.ch));
    let order = bidi_char_order(&text);
    let ghost visits = legacy_segment_visits(source@);
    let ghost start = spans_view(output@);
    let mut j: usize = 0;
    while j < order.len()
        invariant
            j <= order.len(),
            order.len() == source.len(),
            order@ == unicode_bidi_char_order(source@.map_values(|x: SourceScalar| x.ch)),
            forall|k: int| 0 <= k < order.len() ==> order[k] < source.len(),
            visits == legacy_segment_visits(source@),
            spans_view(output@) == push_visits(start, visits.take(j as int)),
        decreases order.len() - j,
    {
        let scalar = source[order[j]];
        assert(visits.take(j + 1).drop_last() =~= visits.take(j as int));
        push_normalized_scalar(output, scalar.source_index, scalar.ch);
        j += 1;
    }
    assert(visits.take(order.len() as int) =~= visits);
    proof {
        lemma_push_visits_ids(start, visits);
        assert forall|x: usize| visit_ids(visits).contains(x) implies source_ids(source@).contains(x) by {
            let j = choose|j: int| 0 <= j < visits.len() && visits[j].0 == x;
            assert(order[j] < source.len());
            assert(source@[order[j] as int].source_index == x);
        }
    }
}

/// The source with every line in the default bidi display order.
pub fn legacy_source_spans(source: &[SourceScalar]) -> (r: Vec<ReconstructedSpan>)
    ensures
        spans_view(r@) == legacy_spans_from(Seq::empty(), source@, 0),
        span_ids(spans_view(r@)).subset_of(source_ids(source@)),
{
    let mut output: Vec<ReconstructedSpan> = Vec::new();
    assert(spans_view(output@) =~= Seq::empty());
    let mut start: usize = 0;
    let mut index: usize = 0;
    while index < source.len()
        invariant
            start <= index <= source.len(),
            legacy_spans_from(Seq::empty(), source@, 0) == legacy_spans_from(
                spans_view(output@),
                source@,
                start as int,
            ),
            next_newline(source@, start as int) == next_newline(source@, index as int),
            span_ids(spans_view(output@)).subset_of(source_ids(source@)),
        decreases source.len() - index,
    {
        if source[index].ch != '\n' {
            index += 1;
            continue;
        }
        append_legacy_segment(&mut output, &source[start..index]);
        assert(source@.subrange(start as int, index as int) =~= source@.subrange(
            start as int,
            index as int,
        ));
        proof {
            lemma_sub_source_ids(source@, source@.subrange(start as int, index as int), start as int);
        }
        let ghost before = spans_view(output@);
        let newline = "\n".to_owned();
        proof {
            reveal_strlit("\n");
        }
        assert(newline@ =~= seq!['\n']);
        push_span(&mut output, source[index].source_index, newline);
        proof {
            lemma_push_span_ids(before, source@[index as int].source_index, seq!['\n']);
            assert(source_ids(source@).contains(source@[index as int].source_index));
        }
        index += 1;
        start = index;
    }
    append_legacy_segment(&mut output, &source[start..source.len()]);
    proof {
        lemma_sub_source_ids(source@, source@.subrange(start as int, source.len() as int), start as int);
    }
    output
}

} // verus!

verus! {

/// The characters of `s`, in order.
pub fn chars_of_string(s: &String) -> (v: Vec<char>)
    ensures
        v@ == s@,
{
    broadcast use vstd::string::group_string_axioms;

    let text = s.as_str();
    let mut v: Vec<char> = Vec::new();
    for c in it: text.chars()
        invariant
            v@ == it.seq().take(it.index() as int),
            it.seq() == text@,
    {
        v.push(c);
    }
    v
}

} // verus!
