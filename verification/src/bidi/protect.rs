//! Protection of left-to-right identifiers and numbers before inverse
//! reordering: each protected run is shown to the reordering step as
//! directional placeholders, and the original characters are restored from
//! the index map afterwards, so the reordering can move the run but never
//! alter its data.
use vstd::prelude::*;
use crate::bidi::scripts::{
    BaseDirection, is_ltr_affix, is_ltr_content, is_rtl_script, spec_is_ltr_affix,
    spec_is_ltr_content, spec_is_rtl_script,
};
use crate::bidi::unicode::{
    char_is_alphabetic, char_is_alphanumeric, char_is_whitespace, unicode_alphabetic,
    unicode_numeric, unicode_white_space,
};

verus! {

/// One source character together with the index of the layout element it
/// came from.
#[derive(Clone, Copy)]
pub struct SourceScalar {
    pub ch: char,
    pub source_index: usize,
}

/// How a source character is shown to the reordering step.
#[derive(Clone, Copy, PartialEq, Eq, Structural, Debug)]
pub enum ProtectedClass {
    Plain,
    Ltr,
    Number,
}

pub open spec fn spec_replacement(class: ProtectedClass) -> Option<char> {
    match class {
        ProtectedClass::Plain => None,
        ProtectedClass::Ltr => Some('A'),
        ProtectedClass::Number => Some('1'),
    }
}

impl ProtectedClass {
    /// The placeholder shown in place of a protected character: a strong
    /// left-to-right letter for identifiers, a European digit for numbers.
    pub fn replacement(self) -> (r: Option<char>)
        ensures
            r == spec_replacement(self),
    {
        match self {
            ProtectedClass::Plain => None,
            ProtectedClass::Ltr => Some('A'),
            ProtectedClass::Number => Some('1'),
        }
    }
}

/// Each character of `text` as a source scalar whose element is its position.
pub open spec fn indexed_scalars(text: Seq<char>) -> Seq<SourceScalar> {
    text.map(|i: int, c: char| scalar_at(c, i))
}

pub open spec fn scalar_at(c: char, i: int) -> SourceScalar {
    SourceScalar { ch: c, source_index: i as usize }
}

/// Each character of `text` as a source scalar whose element is its position.
pub fn indexed_source(text: &[char]) -> (r: Vec<SourceScalar>)
    ensures
        r@ == indexed_scalars(text@),
{
    let mut source: Vec<SourceScalar> = Vec::new();
    let mut i: usize = 0;
    while i < text.len()
        invariant
            i <= text.len(),
            source@ == indexed_scalars(text@).take(i as int),
        decreases text.len() - i,
    {
        source.push(SourceScalar { ch: text[i], source_index: i });
        assert(source@[i as int] == scalar_at(text@[i as int], i as int));
        i += 1;
        assert(source@ =~= indexed_scalars(text@).take(i as int));
    }
    assert(source@ =~= indexed_scalars(text@));
    source
}

pub open spec fn chars_of_scalars(s: Seq<SourceScalar>) -> Seq<char> {
    s.map_values(|x: SourceScalar| x.ch)
}

/// Whitespace and right-to-left script end a candidate identifier run.
pub open spec fn breaks_run(c: char) -> bool {
    unicode_white_space(c) || spec_is_rtl_script(c)
}

/// The end of the candidate run that contains index `k`.
pub open spec fn run_end(s: Seq<SourceScalar>, k: int) -> int
    decreases s.len() - k,
{
    if k < 0 || k >= s.len() {
        s.len() as int
    } else if breaks_run(s[k].ch) {
        k
    } else {
        run_end(s, k + 1)
    }
}

/// The first left-to-right letter or digit in `[k, end)`, or `end`.
pub open spec fn first_content(s: Seq<SourceScalar>, k: int, end: int) -> int
    decreases end - k,
{
    if k < 0 || k >= end || end > s.len() {
        end
    } else if spec_is_ltr_content(s[k].ch) {
        k
    } else {
        first_content(s, k + 1, end)
    }
}

/// The last left-to-right letter or digit in `[lo, k)`, or `lo`.
pub open spec fn last_content(s: Seq<SourceScalar>, lo: int, k: int) -> int
    decreases k - lo,
{
    if k - 1 <= lo || k > s.len() {
        lo
    } else if spec_is_ltr_content(s[k - 1].ch) {
        k - 1
    } else {
        last_content(s, lo, k - 1)
    }
}

/// `first` moved left over identifier affixes such as `.` or `#`, staying in the run.
pub open spec fn extend_left(s: Seq<SourceScalar>, start: int, first: int) -> int
    decreases first - start,
{
    if first > start && first - 1 < s.len() && spec_is_ltr_affix(s[first - 1].ch) {
        extend_left(s, start, first - 1)
    } else {
        first
    }
}

/// `last` moved right over identifier affixes, staying in the run.
pub open spec fn extend_right(s: Seq<SourceScalar>, end: int, last: int) -> int
    decreases end - last,
{
    if last + 1 < end && 0 <= last + 1 < s.len() && spec_is_ltr_affix(s[last + 1].ch) {
        extend_right(s, end, last + 1)
    } else {
        last
    }
}

pub open spec fn range_has_alphabetic(s: Seq<SourceScalar>, lo: int, hi: int) -> bool {
    exists|k: int| lo <= k <= hi && unicode_alphabetic(#[trigger] s[k].ch)
}

pub open spec fn fill_range(
    prot: Seq<ProtectedClass>,
    lo: int,
    hi: int,
    class: ProtectedClass,
) -> Seq<ProtectedClass> {
    Seq::new(prot.len(), |k: int| if lo <= k < hi { class } else { prot[k] })
}

/// Marks, from index `start` on, each candidate run's span from its first to
/// its last left-to-right letter or digit (widened over affixes): as an
/// identifier when the span holds a letter, as a number otherwise.
pub open spec fn protect_runs(
    s: Seq<SourceScalar>,
    start: int,
    prot: Seq<ProtectedClass>,
) -> Seq<ProtectedClass>
    decreases s.len() - start,
{
    if start < 0 || start >= s.len() {
        prot
    } else if breaks_run(s[start].ch) {
        protect_runs(s, start + 1, prot)
    } else {
        let end = run_end(s, start);
        let first = first_content(s, start, end);
        if end <= start || end > s.len() {
            prot
        } else if first < end {
            let last = last_content(s, first, end);
            let lo = extend_left(s, start, first);
            let hi = extend_right(s, end, last);
            let class = if range_has_alphabetic(s, lo, hi) {
                ProtectedClass::Ltr
            } else {
                ProtectedClass::Number
            };
            protect_runs(s, end, fill_range(prot, lo, hi + 1, class))
        } else {
            protect_runs(s, end, prot)
        }
    }
}

/// Whether the last letter or digit before index `k` is right-to-left script.
pub open spec fn rtl_before(s: Seq<SourceScalar>, k: int) -> bool
    decreases k,
{
    if k <= 0 || k > s.len() {
        false
    } else if unicode_alphabetic(s[k - 1].ch) || unicode_numeric(s[k - 1].ch) {
        spec_is_rtl_script(s[k - 1].ch)
    } else {
        rtl_before(s, k - 1)
    }
}

/// Whether the first letter or digit from index `k` on is right-to-left script.
pub open spec fn rtl_after(s: Seq<SourceScalar>, k: int) -> bool
    decreases s.len() - k,
{
    if k < 0 || k >= s.len() {
        false
    } else if unicode_alphabetic(s[k].ch) || unicode_numeric(s[k].ch) {
        spec_is_rtl_script(s[k].ch)
    } else {
        rtl_after(s, k + 1)
    }
}

/// The first index from `k` on that is not whitespace, or the length.
pub open spec fn first_non_ws(s: Seq<SourceScalar>, k: int) -> int
    decreases s.len() - k,
{
    if k < 0 || k >= s.len() {
        s.len() as int
    } else if !unicode_white_space(s[k].ch) {
        k
    } else {
        first_non_ws(s, k + 1)
    }
}

/// The end of the run of class `class` that starts at `k`.
pub open spec fn class_run_end(prot: Seq<ProtectedClass>, k: int, class: ProtectedClass) -> int
    decreases prot.len() - k,
{
    if k < 0 || k >= prot.len() {
        prot.len() as int
    } else if prot[k] != class {
        k
    } else {
        class_run_end(prot, k + 1, class)
    }
}

/// From index `index` on: a protected run with right-to-left text before it,
/// followed by spaces and a `:` with right-to-left text after it, also
/// protects the spaces and the `:`, so that a spaced field separator stays
/// with its embedded left-to-right run.
pub open spec fn protect_separators(
    s: Seq<SourceScalar>,
    index: int,
    prot: Seq<ProtectedClass>,
) -> Seq<ProtectedClass>
    decreases s.len() - index,
{
    if index < 0 || index >= s.len() || prot.len() != s.len() {
        prot
    } else if prot[index] == ProtectedClass::Plain {
        protect_separators(s, index + 1, prot)
    } else {
        let class = prot[index];
        let end = class_run_end(prot, index, class);
        let sep = first_non_ws(s, end);
        if index < end <= s.len() {
            if rtl_before(s, index) && sep < s.len() && sep != end && s[sep].ch == ':'
                && rtl_after(s, sep + 1) {
                protect_separators(s, end, fill_range(prot, end, sep + 1, class))
            } else {
                protect_separators(s, end, prot)
            }
        } else {
            prot
        }
    }
}

/// The protection class of every source character for a line of base
/// direction `direction`.
pub open spec fn protected_classes(
    s: Seq<SourceScalar>,
    direction: BaseDirection,
) -> Seq<ProtectedClass> {
    let marked = protect_runs(s, 0, Seq::new(s.len(), |k: int| ProtectedClass::Plain));
    if direction == BaseDirection::Rtl {
        protect_separators(s, 0, marked)
    } else {
        marked
    }
}

fn find_run_end(source: &[SourceScalar], start: usize) -> (r: usize)
    requires
        start <= source.len(),
    ensures
        r == run_end(source@, start as int),
        start <= r <= source.len(),
        forall|j: int| start <= j < r ==> !breaks_run(#[trigger] source@[j].ch),
        r < source.len() ==> breaks_run(source@[r as int].ch),
{
    let mut k = start;
    while k < source.len()
        invariant
            start <= k <= source.len(),
            forall|j: int| start <= j < k ==> !breaks_run(#[trigger] source@[j].ch),
            run_end(source@, start as int) == run_end(source@, k as int),
        decreases source.len() - k,
    {
        if char_is_whitespace(source[k].ch) || is_rtl_script(source[k].ch) {
            return k;
        }
        k += 1;
    }
    k
}

fn find_first_content(source: &[SourceScalar], start: usize, end: usize) -> (r: usize)
    requires
        start <= end <= source.len(),
    ensures
        r == first_content(source@, start as int, end as int),
        start <= r <= end,
        r < end ==> spec_is_ltr_content(source@[r as int].ch),
{
    let mut k = start;
    while k < end
        invariant
            start <= k <= end,
            end <= source.len(),
            first_content(source@, start as int, end as int) == first_content(source@, k as int, end as int),
        decreases end - k,
    {
        if is_ltr_content(source[k].ch) {
            return k;
        }
        k += 1;
    }
    k
}

fn find_last_content(source: &[SourceScalar], lo: usize, end: usize) -> (r: usize)
    requires
        lo < end <= source.len(),
    ensures
        r == last_content(source@, lo as int, end as int),
        lo <= r < end,
{
    let mut k = end;
    while k > lo + 1
        invariant
            lo + 1 <= k <= end,
            end <= source.len(),
            last_content(source@, lo as int, end as int) == last_content(source@, lo as int, k as int),
        decreases k,
    {
        if is_ltr_content(source[k - 1].ch) {
            return k - 1;
        }
        k -= 1;
    }
    lo
}

fn widen_left(source: &[SourceScalar], start: usize, first: usize) -> (r: usize)
    requires
        start <= first <= source.len(),
    ensures
        r == extend_left(source@, start as int, first as int),
        start <= r <= first,
{
    let mut f = first;
    while f > start && is_ltr_affix(source[f - 1].ch)
        invariant
            start <= f <= first,
            first <= source.len(),
            extend_left(source@, start as int, first as int) == extend_left(source@, start as int, f as int),
        decreases f,
    {
        f -= 1;
    }
    f
}

fn widen_right(source: &[SourceScalar], end: usize, last: usize) -> (r: usize)
    requires
        last < end <= source.len(),
    ensures
        r == extend_right(source@, end as int, last as int),
        last <= r < end,
{
    let mut l = last;
    while l + 1 < end && is_ltr_affix(source[l + 1].ch)
        invariant
            last <= l < end,
            end <= source.len(),
            extend_right(source@, end as int, last as int) == extend_right(source@, end as int, l as int),
        decreases end - l,
    {
        l += 1;
    }
    l
}

fn any_alphabetic(source: &[SourceScalar], lo: usize, hi: usize) -> (r: bool)
    requires
        lo <= hi < source.len(),
    ensures
        r == range_has_alphabetic(source@, lo as int, hi as int),
{
    let mut k = lo;
    while k <= hi
        invariant
            lo <= k <= hi + 1,
            hi < source.len(),
            forall|j: int| lo <= j < k ==> !unicode_alphabetic(#[trigger] source@[j].ch),
        decreases hi + 1 - k,
    {
        if char_is_alphabetic(source[k].ch) {
            return true;
        }
        k += 1;
    }
    false
}

/// Sets `protected[lo..hi]` to `class`.
fn fill_classes(protected: &mut Vec<ProtectedClass>, lo: usize, hi: usize, class: ProtectedClass)
    requires
        lo <= hi <= old(protected).len(),
    ensures
        final(protected)@ == fill_range(old(protected)@, lo as int, hi as int, class),
{
    let ghost start = protected@;
    let mut k = lo;
    while k < hi
        invariant
            lo <= k <= hi <= protected.len(),
            protected@ == fill_range(start, lo as int, k as int, class),
        decreases hi - k,
    {
        protected.set(k, class);
        k += 1;
    }
}

/// Fills `protected` with the protection class of each source character:
/// the left-to-right runs, then, for a right-to-left line, the field
/// separators embedded with them.
pub fn fill_protected_ltr_scalars(
    source: &[SourceScalar],
    direction: BaseDirection,
    protected: &mut Vec<ProtectedClass>,
)
    ensures
        final(protected)@ == protected_classes(source@, direction),
{
    protected.clear();
    let mut n: usize = 0;
    while n < source.len()
        invariant
            n <= source.len(),
            protected@ == Seq::new(n as nat, |k: int| ProtectedClass::Plain),
        decreases source.len() - n,
    {
        protected.push(ProtectedClass::Plain);
        n += 1;
        assert(protected@ =~= Seq::new(n as nat, |k: int| ProtectedClass::Plain));
    }
    let ghost initial = protected@;
    assert(initial =~= Seq::new(source@.len(), |k: int| ProtectedClass::Plain));
    let mut start: usize = 0;
    while start < source.len()
        invariant
            start <= source.len(),
            protected.len() == source.len(),
            protect_runs(source@, 0, initial) == protect_runs(source@, start as int, protected@),
        decreases source.len() - start,
    {
        if char_is_whitespace(source[start].ch) || is_rtl_script(source[start].ch) {
            start += 1;
            continue;
        }
        let end = find_run_end(source, start);
        let first = find_first_content(source, start, end);
        if first < end {
            let last = find_last_content(source, first, end);
            let lo = widen_left(source, start, first);
            let hi = widen_right(source, end, last);
            let class = if any_alphabetic(source, lo, hi) {
                ProtectedClass::Ltr
            } else {
                ProtectedClass::Number
            };
            fill_classes(protected, lo, hi + 1, class);
        }
        start = end;
    }
    if direction == BaseDirection::Rtl {
        protect_embedded_ltr_separators(source, protected);
    }
}

fn find_class_run_end(protected: &Vec<ProtectedClass>, index: usize, class: ProtectedClass) -> (r: usize)
    requires
        index < protected.len(),
        protected@[index as int] == class,
    ensures
        r == class_run_end(protected@, index as int, class),
        index < r <= protected.len(),
{
    let mut k = index;
    while k < protected.len() && protected[k] == class
        invariant
            index <= k <= protected.len(),
            k == index ==> protected@[index as int] == class,
            class_run_end(protected@, index as int, class) == class_run_end(protected@, k as int, class),
        decreases protected.len() - k,
    {
        k += 1;
    }
    k
}

fn last_alphanumeric_is_rtl(source: &[SourceScalar], end: usize) -> (r: bool)
    requires
        end <= source.len(),
    ensures
        r == rtl_before(source@, end as int),
{
    let mut k = end;
    while k > 0
        invariant
            k <= end,
            end <= source.len(),
            rtl_before(source@, end as int) == rtl_before(source@, k as int),
        decreases k,
    {
        if char_is_alphanumeric(source[k - 1].ch) {
            return is_rtl_script(source[k - 1].ch);
        }
        k -= 1;
    }
    false
}

fn next_alphanumeric_is_rtl(source: &[SourceScalar], start: usize) -> (r: bool)
    requires
        start <= source.len(),
    ensures
        r == rtl_after(source@, start as int),
{
    let mut k = start;
    while k < source.len()
        invariant
            start <= k <= source.len(),
            rtl_after(source@, start as int) == rtl_after(source@, k as int),
        decreases source.len() - k,
    {
        if char_is_alphanumeric(source[k].ch) {
            return is_rtl_script(source[k].ch);
        }
        k += 1;
    }
    false
}

fn find_non_whitespace(source: &[SourceScalar], start: usize) -> (r: usize)
    requires
        start <= source.len(),
    ensures
        r == first_non_ws(source@, start as int),
        start <= r <= source.len(),
{
    let mut k = start;
    while k < source.len()
        invariant
            start <= k <= source.len(),
            first_non_ws(source@, start as int) == first_non_ws(source@, k as int),
        decreases source.len() - k,
    {
        if !char_is_whitespace(source[k].ch) {
            return k;
        }
        k += 1;
    }
    k
}

/// Extends each protected run that sits between right-to-left text and a
/// spaced `:` separator over the spaces and the separator.
pub fn protect_embedded_ltr_separators(source: &[SourceScalar], protected: &mut Vec<ProtectedClass>)
    requires
        old(protected).len() == source.len(),
    ensures
        final(protected)@ == protect_separators(source@, 0, old(protected)@),
{
    let ghost initial = protected@;
    let mut index: usize = 0;
    while index < source.len()
        invariant
            index <= source.len(),
            protected.len() == source.len(),
            protect_separators(source@, 0, initial) == protect_separators(source@, index as int, protected@),
        decreases source.len() - index,
    {
        let class = protected[index];
        if class == ProtectedClass::Plain {
            index += 1;
            continue;
        }
        let run_start = index;
        let run_end = find_class_run_end(protected, index, class);
        index = run_end;
        let separator = find_non_whitespace(source, run_end);
        if last_alphanumeric_is_rtl(source, run_start) && separator < source.len()
            && separator != run_end && source[separator].ch == ':' && next_alphanumeric_is_rtl(
            source,
            separator + 1,
        ) {
            fill_classes(protected, run_end, separator + 1, class);
        }
    }
}

} // verus!

verus! {

pub proof fn lemma_protect_runs_len(s: Seq<SourceScalar>, start: int, prot: Seq<ProtectedClass>)
    ensures
        protect_runs(s, start, prot).len() == prot.len(),
    decreases s.len() - start,
{
    if start < 0 || start >= s.len() {
    } else if breaks_run(s[start].ch) {
        lemma_protect_runs_len(s, start + 1, prot);
    } else {
        let end = run_end(s, start);
        let first = first_content(s, start, end);
        if end <= start || end > s.len() {
        } else if first < end {
            let last = last_content(s, first, end);
            let lo = extend_left(s, start, first);
            let hi = extend_right(s, end, last);
            let class = if range_has_alphabetic(s, lo, hi) {
                ProtectedClass::Ltr
            } else {
                ProtectedClass::Number
            };
            lemma_protect_runs_len(s, end, fill_range(prot, lo, hi + 1, class));
        } else {
            lemma_protect_runs_len(s, end, prot);
        }
    }
}

pub proof fn lemma_protect_separators_len(s: Seq<SourceScalar>, index: int, prot: Seq<ProtectedClass>)
    ensures
        protect_separators(s, index, prot).len() == prot.len(),
    decreases s.len() - index,
{
    if index < 0 || index >= s.len() || prot.len() != s.len() {
    } else if prot[index] == ProtectedClass::Plain {
        lemma_protect_separators_len(s, index + 1, prot);
    } else {
        let class = prot[index];
        let end = class_run_end(prot, index, class);
        let sep = first_non_ws(s, end);
        if index < end <= s.len() {
            if rtl_before(s, index) && sep < s.len() && sep != end && s[sep].ch == ':'
                && rtl_after(s, sep + 1) {
                lemma_protect_separators_len(s, end, fill_range(prot, end, sep + 1, class));
            } else {
                lemma_protect_separators_len(s, end, prot);
            }
        }
    }
}

/// Every source character gets exactly one protection class.
pub proof fn lemma_protected_len(s: Seq<SourceScalar>, direction: BaseDirection)
    ensures
        protected_classes(s, direction).len() == s.len(),
{
    let init = Seq::new(s.len(), |k: int| ProtectedClass::Plain);
    lemma_protect_runs_len(s, 0, init);
    lemma_protect_separators_len(s, 0, protect_runs(s, 0, init));
}

} // verus!
