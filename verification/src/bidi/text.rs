//! Reconstruction of plain text, one line at a time, and the legacy
//! reordering policy.
use vstd::prelude::*;
use crate::bidi::inverse::{inverse_text, inverse_text_spec};
use crate::bidi::scripts::{
    BaseDirection, ReconstructionConfidence, base_direction_of, contains_arabic_presentation_forms,
    contains_compact_mixed_token, contains_rtl_script, has_compact_mixed, has_presentation_form,
    has_rtl_script, is_ltr_content, is_rtl_script, select_base_direction,
    spec_is_arabic_presentation_form, spec_is_ltr_content, spec_is_rtl_script,
};
use crate::bidi::spans::{
    chars_of_string, normalize_char, normalize_chars, normalized_char, string_from_chars,
};
use crate::bidi::unicode::{
    all_ascii,
    bidi_reordered_paragraphs, char_is_alphabetic, char_is_alphanumeric, char_is_whitespace,
    nfkc, nfkc_str, string_push, unicode_alphabetic, unicode_bidi_reordered_paragraphs,
    unicode_numeric, unicode_white_space,
};

verus! {

/// The end of the run of characters that share the whitespace-ness `ws`.
pub open spec fn char_ws_run_end(s: Seq<char>, k: int, ws: bool) -> int
    decreases s.len() - k,
{
    if k < 0 || k >= s.len() {
        s.len() as int
    } else if unicode_white_space(s[k]) != ws {
        k
    } else {
        char_ws_run_end(s, k + 1, ws)
    }
}

/// The first right-to-left character at or after `k`, or the length.
pub open spec fn first_rtl_char(s: Seq<char>, k: int) -> int
    decreases s.len() - k,
{
    if k < 0 || k >= s.len() {
        s.len() as int
    } else if spec_is_rtl_script(s[k]) {
        k
    } else {
        first_rtl_char(s, k + 1)
    }
}

/// The first line feed at or after `k`, or the length.
pub open spec fn next_newline_char(s: Seq<char>, k: int) -> int
    decreases s.len() - k,
{
    if k < 0 || k >= s.len() {
        s.len() as int
    } else if s[k] == '\n' {
        k
    } else {
        next_newline_char(s, k + 1)
    }
}

/// The inverse reordering of `text`, or its normalized stored order when the
/// reordering fails.
pub open spec fn inverse_or_normalized(text: Seq<char>, direction: BaseDirection) -> Seq<char> {
    match inverse_text_spec(text, direction) {
        Some(t) => t,
        None => normalize_chars(text),
    }
}

/// One run of a mixed left-to-right line: whitespace and runs without
/// right-to-left script are kept as they are; a run that starts with
/// left-to-right content keeps that prefix and reorders the rest as
/// right-to-left; any other run is reordered at its own base direction.
pub open spec fn mixed_segment_text(seg: Seq<char>) -> Seq<char> {
    if unicode_white_space(seg[0]) || !has_rtl_script(seg) {
        seg
    } else {
        let f = first_rtl_char(seg, 0);
        if exists|j: int| 0 <= j < f && spec_is_ltr_content(#[trigger] seg[j]) {
            normalize_chars(seg.take(f)) + inverse_or_normalized(seg.skip(f), BaseDirection::Rtl)
        } else {
            inverse_or_normalized(seg, base_direction_of(seg).0)
        }
    }
}

/// The runs of a mixed left-to-right line from index `start` on.
pub open spec fn mixed_ltr_from(s: Seq<char>, start: int) -> Seq<char>
    decreases s.len() - start,
{
    if start < 0 || start >= s.len() {
        Seq::empty()
    } else {
        let end = char_ws_run_end(s, start, unicode_white_space(s[start]));
        if end <= start || end > s.len() {
            Seq::empty()
        } else {
            mixed_segment_text(s.subrange(start, end)) + mixed_ltr_from(s, end)
        }
    }
}

/// The logical text of one visual line: kept when it has no right-to-left
/// script; in the legacy order when its direction is ambiguous and no token
/// mixes scripts; run by run when it is left-to-right with right-to-left
/// content; otherwise inversely reordered at its base direction.
pub open spec fn reconstruct_line_spec(line: Seq<char>) -> Seq<char> {
    if !has_rtl_script(line) {
        line
    } else {
        let (direction, confidence) = base_direction_of(line);
        if confidence == ReconstructionConfidence::Ambiguous && !has_compact_mixed(line) {
            legacy_output_spec(line)
        } else if direction == BaseDirection::Ltr && confidence != ReconstructionConfidence::Exact {
            mixed_ltr_from(line, 0)
        } else {
            inverse_or_normalized(line, direction)
        }
    }
}

/// Every line of `s` from index `start` on, reconstructed, each line feed kept.
pub open spec fn reconstruct_lines_from(s: Seq<char>, start: int) -> Seq<char>
    decreases s.len() - start,
{
    if start < 0 || start >= s.len() {
        Seq::empty()
    } else {
        let k = next_newline_char(s, start);
        if k < start || k >= s.len() {
            reconstruct_line_spec(s.subrange(start, s.len() as int))
        } else {
            reconstruct_line_spec(s.subrange(start, k)) + seq!['\n'] + reconstruct_lines_from(
                s,
                k + 1,
            )
        }
    }
}

/// Visual text turned into logical text, one line at a time.
pub open spec fn reconstruct_text_spec(s: Seq<char>) -> Seq<char> {
    if !has_rtl_script(s) {
        s
    } else {
        reconstruct_lines_from(s, 0)
    }
}

pub open spec fn concat_all(parts: Seq<Seq<char>>) -> Seq<char>
    decreases parts.len(),
{
    if parts.len() == 0 {
        Seq::empty()
    } else {
        concat_all(parts.drop_last()) + parts.last()
    }
}

/// One line in the default bidi display order of `unicode-bidi`.
pub open spec fn reorder_line_spec(line: Seq<char>) -> Seq<char> {
    let paragraphs = unicode_bidi_reordered_paragraphs(line);
    if paragraphs.len() == 0 {
        line
    } else {
        concat_all(paragraphs)
    }
}

/// Every line from index `start` on in display order, each line feed kept.
pub open spec fn reorder_lines_from(s: Seq<char>, start: int) -> Seq<char>
    decreases s.len() - start,
{
    if start < 0 || start >= s.len() {
        Seq::empty()
    } else {
        let k = next_newline_char(s, start);
        if k < start || k >= s.len() {
            reorder_line_spec(s.subrange(start, s.len() as int))
        } else {
            let line = s.subrange(start, k);
            (if line.len() == 0 {
                Seq::empty()
            } else {
                reorder_line_spec(line)
            }) + seq!['\n'] + reorder_lines_from(s, k + 1)
        }
    }
}

/// The text with Arabic presentation forms normalized by NFKC as a whole.
pub open spec fn normalize_for_output_spec(s: Seq<char>) -> Seq<char> {
    if s.len() == 0 || !has_presentation_form(s) {
        s
    } else {
        nfkc(s)
    }
}

/// The legacy output: display order per line, then NFKC when the text has
/// Arabic presentation forms.
pub open spec fn legacy_output_spec(s: Seq<char>) -> Seq<char> {
    normalize_for_output_spec(reorder_lines_from(s, 0))
}

proof fn lemma_newline_from(s: Seq<char>, k: int, e: int)
    requires
        0 <= k <= e <= s.len(),
        forall|i: int| k <= i < e ==> s[i] != '\n',
        e == s.len() || s[e] == '\n',
    ensures
        next_newline_char(s, k) == e,
    decreases e - k,
{
    if k < e {
        lemma_newline_from(s, k + 1, e);
    }
}

proof fn lemma_run_end_from(s: Seq<char>, k: int, e: int, ws: bool)
    requires
        0 <= k <= e <= s.len(),
        forall|i: int| k <= i < e ==> unicode_white_space(s[i]) == ws,
        e == s.len() || unicode_white_space(s[e]) != ws,
    ensures
        char_ws_run_end(s, k, ws) == e,
    decreases e - k,
{
    if k < e {
        lemma_run_end_from(s, k + 1, e, ws);
    }
}

proof fn lemma_newline_shift(p: Seq<char>, q: Seq<char>, j: int)
    requires
        0 <= j <= q.len(),
    ensures
        next_newline_char(p + q, p.len() + j) == p.len() + next_newline_char(q, j),
    decreases q.len() - j,
{
    if j < q.len() {
        assert((p + q)[p.len() + j] == q[j]);
        lemma_newline_shift(p, q, j + 1);
    }
}

proof fn lemma_run_end_shift(p: Seq<char>, q: Seq<char>, j: int, ws: bool)
    requires
        0 <= j <= q.len(),
    ensures
        char_ws_run_end(p + q, p.len() + j, ws) == p.len() + char_ws_run_end(q, j, ws),
    decreases q.len() - j,
{
    if j < q.len() {
        assert((p + q)[p.len() + j] == q[j]);
        lemma_run_end_shift(p, q, j + 1, ws);
    }
}

proof fn lemma_newline_bounds(s: Seq<char>, k: int)
    requires
        0 <= k <= s.len(),
    ensures
        k <= next_newline_char(s, k) <= s.len(),
        next_newline_char(s, k) < s.len() ==> s[next_newline_char(s, k)] == '\n',
    decreases s.len() - k,
{
    if k < s.len() && s[k] != '\n' {
        lemma_newline_bounds(s, k + 1);
    }
}

proof fn lemma_run_end_bounds(s: Seq<char>, k: int, ws: bool)
    requires
        0 <= k <= s.len(),
    ensures
        k <= char_ws_run_end(s, k, ws) <= s.len(),
    decreases s.len() - k,
{
    if k < s.len() && unicode_white_space(s[k]) == ws {
        lemma_run_end_bounds(s, k + 1, ws);
    }
}

proof fn lemma_lines_shift(p: Seq<char>, q: Seq<char>, j: int)
    requires
        0 <= j <= q.len(),
    ensures
        reconstruct_lines_from(p + q, p.len() + j) == reconstruct_lines_from(q, j),
        reorder_lines_from(p + q, p.len() + j) == reorder_lines_from(q, j),
    decreases q.len() - j,
{
    if j < q.len() {
        let s = p + q;
        lemma_newline_shift(p, q, j);
        lemma_newline_bounds(q, j);
        let k = next_newline_char(q, j);
        if k >= q.len() {
            assert(s.subrange(p.len() + j, s.len() as int) =~= q.subrange(j, q.len() as int));
        } else {
            assert(s.subrange(p.len() + j, p.len() + k) =~= q.subrange(j, k));
            lemma_lines_shift(p, q, k + 1);
        }
    }
}

proof fn lemma_lines_plain(b: Seq<char>, j: int)
    requires
        0 <= j <= b.len(),
        !has_rtl_script(b),
    ensures
        reconstruct_lines_from(b, j) == b.skip(j),
    decreases b.len() - j,
{
    if j == b.len() {
        assert(b.skip(j) =~= Seq::<char>::empty());
    } else {
        lemma_newline_bounds(b, j);
        let k = next_newline_char(b, j);
        if k >= b.len() {
            let line = b.subrange(j, b.len() as int);
            assert(!has_rtl_script(line)) by {
                if has_rtl_script(line) {
                    let i = choose|i: int| 0 <= i < line.len() && spec_is_rtl_script(#[trigger] line[i]);
                    assert(line[i] == b[j + i]);
                }
            }
            assert(line =~= b.skip(j));
        } else {
            let line = b.subrange(j, k);
            assert(!has_rtl_script(line)) by {
                if has_rtl_script(line) {
                    let i = choose|i: int| 0 <= i < line.len() && spec_is_rtl_script(#[trigger] line[i]);
                    assert(line[i] == b[j + i]);
                }
            }
            lemma_lines_plain(b, k + 1);
            assert(line + seq!['\n'] + b.skip(k + 1) =~= b.skip(j));
        }
    }
}

/// Text is reconstructed line by line: for a line `a` without a line feed,
/// the text of `a`, a line feed and then `b` is the text of `a`, the line
/// feed, and the text of `b`.
pub proof fn lemma_reconstruct_per_line(a: Seq<char>, b: Seq<char>)
    requires
        !a.contains('\n'),
    ensures
        reconstruct_text_spec(a + seq!['\n'] + b) == reconstruct_text_spec(a) + seq!['\n'] + reconstruct_text_spec(b),
{
    let nl = seq!['\n'];
    let s = a + nl + b;
    assert forall|i: int| 0 <= i < a.len() implies a[i] != '\n' by {
        if a[i] == '\n' {
            assert(a.contains('\n'));
        }
    }
    if !has_rtl_script(s) {
        assert(!has_rtl_script(a)) by {
            if has_rtl_script(a) {
                let i = choose|i: int| 0 <= i < a.len() && spec_is_rtl_script(#[trigger] a[i]);
                assert(s[i] == a[i]);
            }
        }
        assert(!has_rtl_script(b)) by {
            if has_rtl_script(b) {
                let i = choose|i: int| 0 <= i < b.len() && spec_is_rtl_script(#[trigger] b[i]);
                assert(s[a.len() + 1 + i] == b[i]);
            }
        }
    } else {
        lemma_newline_from(s, 0, a.len() as int);
        assert(s.subrange(0, a.len() as int) =~= a);
        assert(s =~= (a + nl) + b);
        lemma_lines_shift(a + nl, b, 0);
        assert(reconstruct_lines_from(s, 0) == reconstruct_line_spec(a) + nl + reconstruct_lines_from(b, 0));
        if has_rtl_script(a) {
            lemma_newline_from(a, 0, a.len() as int);
            assert(a.subrange(0, a.len() as int) =~= a);
        }
        if !has_rtl_script(b) {
            lemma_lines_plain(b, 0);
            assert(b.skip(0) =~= b);
        }
    }
}

/// The legacy reordering works line by line: for a line `a` without a line
/// feed, the reordering of `a`, a line feed and then `b` is the reordering
/// of `a`, the line feed, and the reordering of `b`.
pub proof fn lemma_reorder_per_line(a: Seq<char>, b: Seq<char>)
    requires
        !a.contains('\n'),
    ensures
        reorder_lines_from(a + seq!['\n'] + b, 0) == reorder_lines_from(a, 0) + seq!['\n'] + reorder_lines_from(b, 0),
{
    let nl = seq!['\n'];
    let s = a + nl + b;
    assert forall|i: int| 0 <= i < a.len() implies a[i] != '\n' by {
        if a[i] == '\n' {
            assert(a.contains('\n'));
        }
    }
    lemma_newline_from(s, 0, a.len() as int);
    assert(s.subrange(0, a.len() as int) =~= a);
    assert(s =~= (a + nl) + b);
    lemma_lines_shift(a + nl, b, 0);
    if a.len() > 0 {
        lemma_newline_from(a, 0, a.len() as int);
        assert(a.subrange(0, a.len() as int) =~= a);
    }
}

/// Whitespace throughout, and no whitespace anywhere.
pub open spec fn all_ws(s: Seq<char>, ws: bool) -> bool {
    forall|i: int| 0 <= i < s.len() ==> unicode_white_space(#[trigger] s[i]) == ws
}

proof fn lemma_mixed_shift(p: Seq<char>, q: Seq<char>, j: int)
    requires
        0 <= j <= q.len(),
    ensures
        mixed_ltr_from(p + q, p.len() + j) == mixed_ltr_from(q, j),
    decreases q.len() - j,
{
    if j < q.len() {
        let s = p + q;
        assert(s[p.len() + j] == q[j]);
        let ws = unicode_white_space(q[j]);
        lemma_run_end_shift(p, q, j, ws);
        lemma_run_end_bounds(q, j, ws);
        let e = char_ws_run_end(q, j, ws);
        if e > j {
            assert(s.subrange(p.len() + j, p.len() + e) =~= q.subrange(j, e));
            lemma_mixed_shift(p, q, e);
        }
    }
}

proof fn lemma_mixed_one_run(s: Seq<char>, ws: bool)
    requires
        s.len() > 0,
        all_ws(s, ws),
    ensures
        mixed_ltr_from(s, 0) == mixed_segment_text(s),
{
    lemma_run_end_from(s, 0, s.len() as int, ws);
    assert(s.subrange(0, s.len() as int) =~= s);
    assert(mixed_ltr_from(s, s.len() as int) =~= Seq::<char>::empty());
    assert(mixed_segment_text(s) + Seq::<char>::empty() =~= mixed_segment_text(s));
}

/// A mixed left-to-right line is handled run by run: a run of whitespace
/// between two runs without whitespace is kept as it is, and each side is
/// handled on its own; whitespace alone, and a run without whitespace and
/// without right-to-left script, are kept as they are.
pub proof fn lemma_mixed_per_segment(a: Seq<char>, w: Seq<char>, b: Seq<char>)
    requires
        a.len() > 0,
        w.len() > 0,
        b.len() > 0,
        all_ws(a, false),
        all_ws(w, true),
        all_ws(b, false),
    ensures
        mixed_ltr_from(a + w + b, 0) == mixed_ltr_from(a, 0) + w + mixed_ltr_from(b, 0),
        mixed_ltr_from(w, 0) == w,
        !has_rtl_script(a) ==> mixed_ltr_from(a, 0) == a,
{
    let s = a + w + b;
    lemma_mixed_one_run(a, false);
    lemma_mixed_one_run(w, true);
    assert(unicode_white_space(w[0]));
    assert(s[0] == a[0]);
    assert(s[a.len() as int] == w[0]);
    lemma_run_end_from(s, 0, a.len() as int, false);
    assert(s.subrange(0, a.len() as int) =~= a);
    assert(s =~= a + (w + b));
    assert((w + b)[0] == w[0]);
    assert((w + b)[w.len() as int] == b[0]);
    lemma_run_end_from(w + b, 0, w.len() as int, true);
    assert((w + b).subrange(0, w.len() as int) =~= w);
    assert(w + b =~= w + b);
    lemma_mixed_shift(w, b, 0);
    assert(mixed_ltr_from(w + b, 0) == w + mixed_ltr_from(b, 0));
    lemma_mixed_shift(a, w + b, 0);
    assert(mixed_ltr_from(s, 0) == mixed_segment_text(a) + mixed_ltr_from(s, a.len() as int));
    assert(mixed_ltr_from(s, a.len() as int) == mixed_ltr_from(w + b, 0));
}

/// Whitespace, a run without right-to-left script, and any text without
/// presentation forms are left alone by normalization.
pub proof fn lemma_normalize_plain(s: Seq<char>)
    requires
        !has_presentation_form(s),
    ensures
        normalize_chars(s) == s,
    decreases s.len(),
{
    if s.len() > 0 {
        assert(!has_presentation_form(s.drop_last())) by {
            if has_presentation_form(s.drop_last()) {
                let i = choose|i: int|
                    0 <= i < s.drop_last().len() && spec_is_arabic_presentation_form(
                        #[trigger] s.drop_last()[i],
                    );
                assert(s[i] == s.drop_last()[i]);
            }
        }
        lemma_normalize_plain(s.drop_last());
        assert(!spec_is_arabic_presentation_form(s[s.len() - 1]));
        assert(s.drop_last() + seq![s.last()] =~= s);
    }
}

pub proof fn lemma_normalize_concat(a: Seq<char>, b: Seq<char>)
    ensures
        normalize_chars(a + b) == normalize_chars(a) + normalize_chars(b),
    decreases b.len(),
{
    if b.len() == 0 {
        assert(a + b =~= a);
        assert(normalize_chars(a) + normalize_chars(b) =~= normalize_chars(a));
    } else {
        assert((a + b).drop_last() =~= a + b.drop_last());
        lemma_normalize_concat(a, b.drop_last());
        assert(normalize_chars(a) + normalize_chars(b.drop_last()) + normalize_char(b.last())
            =~= normalize_chars(a) + normalize_chars(b));
    }
}

/// The output form of every character of `text`.
pub fn normalize_chars_of(text: &[char]) -> (r: Vec<char>)
    ensures
        r@ == normalize_chars(text@),
{
    let mut out: Vec<char> = Vec::new();
    let mut i: usize = 0;
    while i < text.len()
        invariant
            i <= text.len(),
            out@ == normalize_chars(text@.take(i as int)),
        decreases text.len() - i,
    {
        assert(text@.take(i + 1).drop_last() =~= text@.take(i as int));
        let mut n = normalized_char(text[i]);
        out.append(&mut n);
        i += 1;
    }
    assert(text@.take(text.len() as int) =~= text@);
    out
}

/// Normalizes only Arabic presentation-form code points.
pub fn normalize_arabic_presentation_forms(text: &str) -> (r: String)
    ensures
        r@ == normalize_chars(text@),
{
    let chars = chars_of_str(text);
    if !contains_arabic_presentation_forms(chars.as_slice()) {
        proof {
            lemma_normalize_plain(text@);
        }
        return text.to_owned();
    }
    string_from_chars(&normalize_chars_of(chars.as_slice()))
}

/// The characters of `text`, in order.
pub fn chars_of_str(text: &str) -> (v: Vec<char>)
    ensures
        v@ == text@,
{
    broadcast use vstd::string::group_string_axioms;

    let mut v: Vec<char> = Vec::new();
    for c in it: text.chars()
        invariant
            v@ == it.seq().take(it.index() as int),
            it.seq() == text@,
    {
        v.push(c);
    }
    v
}

pub fn copy_chars(text: &[char]) -> (r: Vec<char>)
    ensures
        r@ == text@,
{
    let mut out: Vec<char> = Vec::new();
    let mut i: usize = 0;
    while i < text.len()
        invariant
            i <= text.len(),
            out@ == text@.take(i as int),
        decreases text.len() - i,
    {
        out.push(text[i]);
        i += 1;
        assert(out@ =~= text@.take(i as int));
    }
    assert(out@ =~= text@);
    out
}

fn find_char_ws_run_end(s: &[char], start: usize, ws: bool) -> (r: usize)
    requires
        start <= s.len(),
    ensures
        r == char_ws_run_end(s@, start as int, ws),
        start <= r <= s.len(),
        r < s.len() ==> unicode_white_space(s@[r as int]) != ws,
{
    let mut k = start;
    while k < s.len()
        invariant
            start <= k <= s.len(),
            char_ws_run_end(s@, start as int, ws) == char_ws_run_end(s@, k as int, ws),
        decreases s.len() - k,
    {
        if char_is_whitespace(s[k]) != ws {
            return k;
        }
        k += 1;
    }
    k
}

fn find_first_rtl_char(s: &[char]) -> (r: usize)
    ensures
        r == first_rtl_char(s@, 0),
        r <= s.len(),
{
    let mut k: usize = 0;
    while k < s.len()
        invariant
            k <= s.len(),
            first_rtl_char(s@, 0) == first_rtl_char(s@, k as int),
        decreases s.len() - k,
    {
        if is_rtl_script(s[k]) {
            return k;
        }
        k += 1;
    }
    k
}

fn any_ltr_content_char(s: &[char], end: usize) -> (r: bool)
    requires
        end <= s.len(),
    ensures
        r == exists|j: int| 0 <= j < end && spec_is_ltr_content(#[trigger] s@[j]),
{
    let mut k: usize = 0;
    while k < end
        invariant
            k <= end <= s.len(),
            forall|j: int| 0 <= j < k ==> !spec_is_ltr_content(#[trigger] s@[j]),
        decreases end - k,
    {
        if is_ltr_content(s[k]) {
            return true;
        }
        k += 1;
    }
    false
}

/// The inverse reordering of `text`, or its normalized stored order.
fn inverse_or_normalized_text(text: &[char], direction: BaseDirection) -> (r: Vec<char>)
    ensures
        r@ == inverse_or_normalized(text@, direction),
{
    match inverse_text(text, direction) {
        Some(t) => t,
        None => normalize_chars_of(text),
    }
}

/// Reconstructs a left-to-right line with right-to-left content run by run.
pub fn reconstruct_mixed_ltr_line(line: &[char]) -> (r: Vec<char>)
    ensures
        r@ == mixed_ltr_from(line@, 0),
{
    let mut output: Vec<char> = Vec::new();
    let mut start: usize = 0;
    while start < line.len()
        invariant
            start <= line.len(),
            output@ + mixed_ltr_from(line@, start as int) == mixed_ltr_from(line@, 0),
        decreases line.len() - start,
    {
        let whitespace = char_is_whitespace(line[start]);
        let end = find_char_ws_run_end(line, start, whitespace);
        let segment = &line[start..end];
        assert(segment@ == line@.subrange(start as int, end as int));
        assert(segment@[0] == line@[start as int]);
        let mut piece: Vec<char> = if whitespace || !contains_rtl_script(segment) {
            copy_chars(segment)
        } else {
            let first = find_first_rtl_char(segment);
            if any_ltr_content_char(segment, first) {
                let head = &segment[0..first];
                let tail = &segment[first..segment.len()];
                assert(head@ =~= segment@.take(first as int));
                assert(tail@ =~= segment@.skip(first as int));
                let mut p = normalize_chars_of(head);
                let mut rest = inverse_or_normalized_text(tail, BaseDirection::Rtl);
                p.append(&mut rest);
                p
            } else {
                let (direction, _) = select_base_direction(segment);
                inverse_or_normalized_text(segment, direction)
            }
        };
        assert(piece@ == mixed_segment_text(segment@));
        let ghost before = output@;
        output.append(&mut piece);
        assert(before + (mixed_segment_text(segment@) + mixed_ltr_from(line@, end as int)) =~= output@
            + mixed_ltr_from(line@, end as int));
        start = end;
    }
    assert(output@ + mixed_ltr_from(line@, start as int) =~= output@);
    output
}

/// Reconstructs one visual line without line feeds.
pub fn reconstruct_string_line(line: &[char]) -> (r: Vec<char>)
    ensures
        r@ == reconstruct_line_spec(line@),
{
    if !contains_rtl_script(line) {
        return copy_chars(line);
    }
    let (direction, confidence) = select_base_direction(line);
    if confidence == ReconstructionConfidence::Ambiguous && !contains_compact_mixed_token(line) {
        let text = string_from_chars(&copy_chars(line));
        return chars_of_string(&reorder_text_for_output(text.as_str()));
    }
    if direction == BaseDirection::Ltr && confidence != ReconstructionConfidence::Exact {
        return reconstruct_mixed_ltr_line(line);
    }
    inverse_or_normalized_text(line, direction)
}

/// Reconstructs visual text one line at a time.
pub fn reconstruct_text_per_line(text: &str) -> (r: String)
    ensures
        r@ == reconstruct_text_spec(text@),
{
    let chars = chars_of_str(text);
    if chars.len() == 0 {
        return String::new();
    }
    if !contains_rtl_script(chars.as_slice()) {
        return text.to_owned();
    }
    let mut output: Vec<char> = Vec::new();
    let mut start: usize = 0;
    let mut index: usize = 0;
    while index < chars.len()
        invariant
            start <= index <= chars.len(),
            output@ + reconstruct_lines_from(chars@, start as int) == reconstruct_lines_from(chars@, 0),
            next_newline_char(chars@, start as int) == next_newline_char(chars@, index as int),
        decreases chars.len() - index,
    {
        if chars[index] != '\n' {
            index += 1;
            continue;
        }
        let line = &chars.as_slice()[start..index];
        assert(line@ == chars@.subrange(start as int, index as int));
        let mut piece = reconstruct_string_line(line);
        let ghost before = output@;
        output.append(&mut piece);
        output.push('\n');
        assert(before + (reconstruct_line_spec(line@) + seq!['\n'] + reconstruct_lines_from(
            chars@,
            index + 1,
        )) =~= output@ + reconstruct_lines_from(chars@, index + 1));
        index += 1;
        start = index;
    }
    if start < chars.len() {
        let line = &chars.as_slice()[start..chars.len()];
        assert(line@ == chars@.subrange(start as int, chars@.len() as int));
        let mut piece = reconstruct_string_line(line);
        output.append(&mut piece);
    } else {
        assert(output@ + reconstruct_lines_from(chars@, start as int) =~= output@);
    }
    string_from_chars(&output)
}

/// Returns final logical text with nominal Arabic letters.
pub fn reconstruct_text_for_output(text: &str) -> (r: String)
    ensures
        r@ == reconstruct_text_spec(text@),
{
    reconstruct_text_per_line(text)
}

/// Reorders one line into the default bidi display order.
pub fn reorder_single_line(line: &str) -> (r: String)
    ensures
        r@ == reorder_line_spec(line@),
        r@.to_multiset() == line@.to_multiset(),
        all_ascii(line@) ==> r@ == line@,
{
    let paragraphs = bidi_reordered_paragraphs(line);
    if paragraphs.len() == 0 {
        return line.to_owned();
    }
    let ghost all = paragraphs@.map_values(|p: String| p@);
    let mut output = String::new();
    let mut i: usize = 0;
    while i < paragraphs.len()
        invariant
            i <= paragraphs.len(),
            all == paragraphs@.map_values(|p: String| p@),
            output@ == concat_all(all.take(i as int)),
        decreases paragraphs.len() - i,
    {
        assert(all.take(i + 1).drop_last() =~= all.take(i as int));
        output.append(paragraphs[i].as_str());
        i += 1;
    }
    assert(all.take(paragraphs.len() as int) =~= all);
    output
}

/// Reorders text with the legacy UAX #9 policy, one line at a time.
pub fn reorder_text_per_line(text: &str) -> (r: String)
    ensures
        r@ == reorder_lines_from(text@, 0),
        r@.to_multiset() == text@.to_multiset(),
        all_ascii(text@) ==> r@ == text@,
{
    let chars = chars_of_str(text);
    if chars.len() == 0 {
        let empty = String::new();
        assert(text@ =~= empty@);
        return empty;
    }
    let mut output = String::new();
    let mut start: usize = 0;
    let mut index: usize = 0;
    assert(chars@.subrange(0, 0) =~= output@);
    while index < chars.len()
        invariant
            start <= index <= chars.len(),
            output@ + reorder_lines_from(chars@, start as int) == reorder_lines_from(chars@, 0),
            next_newline_char(chars@, start as int) == next_newline_char(chars@, index as int),
            output@.to_multiset() == chars@.subrange(0, start as int).to_multiset(),
            chars@ == text@,
            all_ascii(text@) ==> output@ == chars@.subrange(0, start as int),
        decreases chars.len() - index,
    {
        if chars[index] != '\n' {
            index += 1;
            continue;
        }
        let ghost before = output@;
        let line_chars = copy_chars(&chars.as_slice()[start..index]);
        assert(line_chars@ == chars@.subrange(start as int, index as int));
        if line_chars.len() > 0 {
            let line = string_from_chars(&line_chars);
            output.append(reorder_single_line(line.as_str()).as_str());
        } else {
            assert(line_chars@ =~= Seq::<char>::empty());
        }
        string_push(&mut output, '\n');
        let ghost piece = if line_chars@.len() == 0 {
            Seq::<char>::empty()
        } else {
            reorder_line_spec(line_chars@)
        };
        assert(output@ =~= before + piece + seq!['\n']);
        assert(before + (piece + seq!['\n'] + reorder_lines_from(chars@, index + 1)) =~= output@
            + reorder_lines_from(chars@, index + 1));
        proof {
            broadcast use vstd::seq_lib::lemma_multiset_commutative;
            assert(chars@.subrange(0, index + 1) =~= chars@.subrange(0, start as int)
                + line_chars@ + seq!['\n']);
            assert(piece.to_multiset() == line_chars@.to_multiset());
            if all_ascii(text@) {
                assert(all_ascii(line_chars@));
                assert(piece == line_chars@);
            }
        }
        index += 1;
        start = index;
    }
    if start < chars.len() {
        let line_chars = copy_chars(&chars.as_slice()[start..chars.len()]);
        assert(line_chars@ == chars@.subrange(start as int, chars@.len() as int));
        let line = string_from_chars(&line_chars);
        let ghost before = output@;
        let last = reorder_single_line(line.as_str());
        output.append(last.as_str());
        proof {
            broadcast use vstd::seq_lib::lemma_multiset_commutative;
            assert(chars@ =~= chars@.subrange(0, start as int) + line_chars@);
            assert(output@ =~= before + last@);
            if all_ascii(text@) {
                assert(all_ascii(line_chars@));
            }
        }
    } else {
        assert(output@ + reorder_lines_from(chars@, start as int) =~= output@);
        assert(chars@.subrange(0, start as int) =~= chars@);
    }
    output
}

/// Normalizes Arabic presentation forms with the legacy compatibility
/// behavior: the whole text goes through NFKC when it has any.
pub fn normalize_presentation_forms_for_output(text: &str) -> (r: String)
    ensures
        r@ == normalize_for_output_spec(text@),
{
    let chars = chars_of_str(text);
    if chars.len() == 0 || !contains_arabic_presentation_forms(chars.as_slice()) {
        return text.to_owned();
    }
    nfkc_str(text)
}

/// Reorders and normalizes text with the legacy output policy.
pub fn reorder_text_for_output(text: &str) -> (r: String)
    ensures
        r@ == legacy_output_spec(text@),
{
    normalize_presentation_forms_for_output(reorder_text_per_line(text).as_str())
}

} // verus!
