//! Character-to-line grouping.
//!
//! Consecutive characters are compared pairwise: a pair is horizontally
//! aligned when the two characters sit on one line close enough together,
//! vertically aligned when they sit in one column. A run of pairs aligned
//! in one direction forms a text line of that writing mode; a character
//! that starts no such run forms a horizontal line of its own. Word spaces
//! go between consecutive characters of a line that stand far apart, and
//! each line ends with a line break.
use vstd::prelude::*;

verus! {

/// How two consecutive characters line up, and whether a word space
/// separates the second from the first in either writing mode.
#[derive(Debug, Copy, Clone, PartialEq, Eq, Structural)]
pub struct PairAlignment {
    /// Same line, close enough horizontally.
    pub halign: bool,
    /// Same column, close enough vertically.
    pub valign: bool,
    /// A word space precedes the second character in a horizontal line.
    pub hgap: bool,
    /// A word space precedes the second character in a vertical line.
    pub vgap: bool,
}

/// A text line: the characters `start..end`, in one writing mode.
#[derive(Debug, Copy, Clone, PartialEq, Eq, Structural)]
pub struct LineRun {
    pub start: usize,
    pub end: usize,
    pub vertical: bool,
}

/// The runs as `(start, end, vertical)` triples.
pub open spec fn runs_view(runs: Seq<LineRun>) -> Seq<(int, int, bool)> {
    runs.map_values(|r: LineRun| (r.start as int, r.end as int, r.vertical))
}

/// Whether the pair keeps a line of the given writing mode going.
pub open spec fn continues(a: PairAlignment, vertical: bool) -> bool {
    if vertical {
        a.valign
    } else {
        a.halign
    }
}

/// The lines that the pairs from `i` on close, given the line still open
/// (its first character and writing mode), if any. The last character has
/// index `aligns.len()`.
pub open spec fn runs_from(aligns: Seq<PairAlignment>, i: int, open: Option<(int, bool)>) -> Seq<
    (int, int, bool),
>
    decreases aligns.len() - i,
{
    if i >= aligns.len() {
        match open {
            Some((s, v)) => seq![(s, aligns.len() + 1int, v)],
            None => seq![(aligns.len() as int, aligns.len() + 1int, false)],
        }
    } else {
        let a = aligns[i];
        match open {
            Some((s, v)) => if continues(a, v) {
                runs_from(aligns, i + 1, open)
            } else {
                seq![(s, i + 1, v)] + runs_from(aligns, i + 1, None)
            },
            None => if a.valign && !a.halign {
                runs_from(aligns, i + 1, Some((i, true)))
            } else if a.halign && !a.valign {
                runs_from(aligns, i + 1, Some((i, false)))
            } else {
                seq![(i, i + 1, false)] + runs_from(aligns, i + 1, None)
            },
        }
    }
}

/// The lines of `char_count` characters whose consecutive pairs line up
/// as `aligns` says.
pub open spec fn line_runs(char_count: int, aligns: Seq<PairAlignment>) -> Seq<(int, int, bool)> {
    if char_count == 0 {
        Seq::empty()
    } else {
        runs_from(aligns, 0, None)
    }
}

/// The pair alignments fit the character count: one per consecutive pair.
pub open spec fn pairs_fit(char_count: int, aligns: Seq<PairAlignment>) -> bool {
    if char_count == 0 {
        aligns.len() == 0
    } else {
        aligns.len() + 1 == char_count
    }
}

/// The runs are nonempty ranges of character indices that follow one
/// another without gap or overlap, from the first character to the last.
pub open spec fn runs_partition(runs: Seq<(int, int, bool)>, n: int) -> bool {
    &&& (n == 0 <==> runs.len() == 0)
    &&& runs.len() > 0 ==> runs[0].0 == 0 && runs.last().1 == n
    &&& forall|k: int| 0 <= k < runs.len() ==> #[trigger] runs[k].0 < runs[k].1
    &&& forall|k: int| #![trigger runs[k]] 0 <= k < runs.len() - 1 ==> runs[k].1 == runs[k + 1].0
}

/// The pair starts a line of the given writing mode: it is aligned in that
/// direction and not in the other.
pub open spec fn starts_line(a: PairAlignment, vertical: bool) -> bool {
    if vertical {
        a.valign && !a.halign
    } else {
        a.halign && !a.valign
    }
}

/// What a line says of the pairs in and after it: a line of several
/// characters starts with a pair that starts it and every pair inside it is
/// aligned in its writing mode, and the pair after it is not; a line of one
/// character is horizontal, and unless it is the last, the pair after it
/// is aligned both ways or neither.
pub open spec fn run_fits(aligns: Seq<PairAlignment>, r: (int, int, bool)) -> bool {
    let (s, e, v) = r;
    &&& e - s >= 2 ==> starts_line(aligns[s], v)
    &&& e - s >= 2 ==> forall|c: int| s <= c < e - 1 ==> #[trigger] continues(aligns[c], v)
    &&& e - s >= 2 && e <= aligns.len() ==> !continues(aligns[e - 1], v)
    &&& e - s == 1 ==> !v
    &&& e - s == 1 && e <= aligns.len() ==> aligns[s].halign == aligns[s].valign
}

/// The open line from `s` on: started at `s`, kept going through `i - 1`.
pub open spec fn open_fits(aligns: Seq<PairAlignment>, s: int, i: int, v: bool) -> bool {
    &&& 0 <= s < i
    &&& starts_line(aligns[s], v)
    &&& forall|c: int| s <= c < i ==> #[trigger] continues(aligns[c], v)
}

proof fn lemma_runs_from_shape(aligns: Seq<PairAlignment>, i: int, open: Option<(int, bool)>)
    requires
        0 <= i <= aligns.len(),
        match open {
            Some((s, v)) => open_fits(aligns, s, i, v),
            None => true,
        },
    ensures
        ({
            let r = runs_from(aligns, i, open);
            &&& r.len() >= 1
            &&& r[0].0 == match open {
                Some((s, _)) => s,
                None => i,
            }
            &&& r.last().1 == aligns.len() + 1
            &&& forall|k: int| 0 <= k < r.len() ==> #[trigger] r[k].0 < r[k].1
            &&& forall|k: int| #![trigger r[k]] 0 <= k < r.len() - 1 ==> r[k].1 == r[k + 1].0
            &&& forall|k: int| 0 <= k < r.len() ==> #[trigger] run_fits(aligns, r[k])
        }),
    decreases aligns.len() - i,
{
    let r = runs_from(aligns, i, open);
    if i >= aligns.len() {
        match open {
            Some((s, v)) => {
                assert(run_fits(aligns, r[0]));
            },
            None => {
                assert(run_fits(aligns, r[0]));
            },
        }
    } else {
        let a = aligns[i];
        match open {
            Some((s, v)) => {
                if continues(a, v) {
                    assert(open_fits(aligns, s, i + 1, v));
                    lemma_runs_from_shape(aligns, i + 1, open);
                } else {
                    lemma_runs_from_shape(aligns, i + 1, None);
                    let rest = runs_from(aligns, i + 1, None);
                    assert(r == seq![(s, i + 1, v)] + rest);
                    assert(run_fits(aligns, (s, i + 1, v)));
                    assert forall|k: int| 0 <= k < r.len() implies #[trigger] run_fits(aligns, r[k]) by {
                        if k > 0 {
                            assert(r[k] == rest[k - 1]);
                        }
                    }
                    assert forall|k: int| 0 <= k < r.len() implies #[trigger] r[k].0 < r[k].1 by {
                        if k > 0 {
                            assert(r[k] == rest[k - 1]);
                        }
                    }
                    assert forall|k: int| #![trigger r[k]] 0 <= k < r.len() - 1 implies r[k].1 == r[k
                        + 1].0 by {
                        assert(r[k + 1] == rest[k]);
                        if k > 0 {
                            assert(r[k] == rest[k - 1]);
                        }
                    }
                }
            },
            None => {
                if a.valign && !a.halign {
                    assert(open_fits(aligns, i, i + 1, true));
                    lemma_runs_from_shape(aligns, i + 1, Some((i, true)));
                } else if a.halign && !a.valign {
                    assert(open_fits(aligns, i, i + 1, false));
                    lemma_runs_from_shape(aligns, i + 1, Some((i, false)));
                } else {
                    lemma_runs_from_shape(aligns, i + 1, None);
                    let rest = runs_from(aligns, i + 1, None);
                    assert(r == seq![(i, i + 1, false)] + rest);
                    assert(run_fits(aligns, (i, i + 1, false)));
                    assert forall|k: int| 0 <= k < r.len() implies #[trigger] run_fits(aligns, r[k]) by {
                        if k > 0 {
                            assert(r[k] == rest[k - 1]);
                        }
                    }
                    assert forall|k: int| 0 <= k < r.len() implies #[trigger] r[k].0 < r[k].1 by {
                        if k > 0 {
                            assert(r[k] == rest[k - 1]);
                        }
                    }
                    assert forall|k: int| #![trigger r[k]] 0 <= k < r.len() - 1 implies r[k].1 == r[k
                        + 1].0 by {
                        assert(r[k + 1] == rest[k]);
                        if k > 0 {
                            assert(r[k] == rest[k - 1]);
                        }
                    }
                }
            },
        }
    }
}

/// Every character lands in exactly one line: the lines are consecutive,
/// nonempty ranges that cover the characters in order. A line of several
/// characters holds only pairs aligned in its writing mode, begins with a
/// pair aligned in that mode alone, and ends where that alignment breaks; a
/// line of one character is horizontal.
pub proof fn lemma_line_runs_partition(char_count: int, aligns: Seq<PairAlignment>)
    requires
        pairs_fit(char_count, aligns),
    ensures
        runs_partition(line_runs(char_count, aligns), char_count),
        forall|k: int|
            0 <= k < line_runs(char_count, aligns).len() ==> #[trigger] run_fits(
                aligns,
                line_runs(char_count, aligns)[k],
            ),
{
    if char_count > 0 {
        lemma_runs_from_shape(aligns, 0, None);
    }
}

/// Splits `char_count` characters into text lines, given how each pair of
/// consecutive characters lines up.
pub fn segment_lines(char_count: usize, aligns: &Vec<PairAlignment>) -> (r: Vec<LineRun>)
    requires
        pairs_fit(char_count as int, aligns@),
    ensures
        runs_view(r@) == line_runs(char_count as int, aligns@),
        runs_partition(runs_view(r@), char_count as int),
{
    proof {
        lemma_line_runs_partition(char_count as int, aligns@);
    }
    let mut result: Vec<LineRun> = Vec::new();
    if char_count == 0 {
        assert(runs_view(result@) =~= Seq::<(int, int, bool)>::empty());
        return result;
    }
    let mut open: Option<(usize, bool)> = None;
    let mut i: usize = 0;
    while i < aligns.len()
        invariant
            i <= aligns.len(),
            aligns.len() + 1 == char_count,
            match open {
                Some((s, _)) => s <= i,
                None => true,
            },
            runs_view(result@) + runs_from(
                aligns@,
                i as int,
                match open {
                    Some((s, v)) => Some((s as int, v)),
                    None => None,
                },
            ) == runs_from(aligns@, 0, None),
        decreases aligns.len() - i,
    {
        let a = aligns[i];
        let ghost before = runs_view(result@);
        match open {
            Some((s, v)) => {
                let keep = if v {
                    a.valign
                } else {
                    a.halign
                };
                if !keep {
                    result.push(LineRun { start: s, end: i + 1, vertical: v });
                    open = None;
                    assert(runs_view(result@) =~= before + seq![(s as int, i + 1, v)]);
                    assert(before + seq![(s as int, i + 1, v)] + runs_from(aligns@, i + 1, None)
                        =~= before + (seq![(s as int, i + 1, v)] + runs_from(aligns@, i + 1, None)));
                }
            },
            None => {
                if a.valign && !a.halign {
                    open = Some((i, true));
                } else if a.halign && !a.valign {
                    open = Some((i, false));
                } else {
                    result.push(LineRun { start: i, end: i + 1, vertical: false });
                    assert(runs_view(result@) =~= before + seq![(i as int, i + 1, false)]);
                    assert(before + seq![(i as int, i + 1, false)] + runs_from(aligns@, i + 1, None)
                        =~= before + (seq![(i as int, i + 1, false)] + runs_from(
                        aligns@,
                        i + 1,
                        None,
                    )));
                }
            },
        }
        i = i + 1;
    }
    let ghost before = runs_view(result@);
    let last = aligns.len();
    match open {
        Some((s, v)) => {
            result.push(LineRun { start: s, end: last + 1, vertical: v });
            assert(runs_view(result@) =~= before + seq![(s as int, last + 1, v)]);
        },
        None => {
            result.push(LineRun { start: last, end: last + 1, vertical: false });
            assert(runs_view(result@) =~= before + seq![(last as int, last + 1, false)]);
        },
    }
    result
}

proof fn lemma_partition_lower(runs: Seq<(int, int, bool)>, n: int, k: int)
    requires
        runs_partition(runs, n),
        0 <= k < runs.len(),
    ensures
        0 <= runs[k].0,
    decreases k,
{
    if k > 0 {
        lemma_partition_lower(runs, n, k - 1);
        assert(runs[k - 1].1 == runs[k].0);
        assert(runs[k - 1].0 < runs[k - 1].1);
    }
}

proof fn lemma_partition_upper(runs: Seq<(int, int, bool)>, n: int, k: int)
    requires
        runs_partition(runs, n),
        0 <= k < runs.len(),
    ensures
        runs[k].1 <= n,
    decreases runs.len() - k,
{
    if k < runs.len() - 1 {
        lemma_partition_upper(runs, n, k + 1);
        assert(runs[k].1 == runs[k + 1].0);
        assert(runs[k + 1].0 < runs[k + 1].1);
    }
}

/// Each line of a partition lies within the characters.
pub proof fn lemma_partition_bounds(runs: Seq<(int, int, bool)>, n: int)
    requires
        runs_partition(runs, n),
    ensures
        forall|k: int| 0 <= k < runs.len() ==> 0 <= #[trigger] runs[k].0 && runs[k].0 < runs[k].1 && runs[k].1 <= n,
{
    assert forall|k: int| 0 <= k < runs.len() implies 0 <= #[trigger] runs[k].0 && runs[k].0 < runs[k].1 && runs[k].1 <= n by {
        lemma_partition_lower(runs, n, k);
        lemma_partition_upper(runs, n, k);
    }
}

/// An element of a planned text line.
#[derive(Debug, Copy, Clone, PartialEq, Eq, Structural)]
pub enum LineItem {
    /// The character with this index.
    Char(usize),
    /// A word space between two characters.
    WordSpace,
    /// The line break that ends every line.
    LineEnd,
}

/// Whether a word space goes before the second character of the pair in a
/// line of the given writing mode.
pub open spec fn gap_before(a: PairAlignment, vertical: bool) -> bool {
    if vertical {
        a.vgap
    } else {
        a.hgap
    }
}

/// The elements of the characters `s..e` of a line: each character, with a
/// word space before it where the pair it closes calls for one.
pub open spec fn chars_items(aligns: Seq<PairAlignment>, s: int, e: int, vertical: bool) -> Seq<
    LineItem,
>
    decreases e - s,
{
    if e <= s + 1 {
        seq![LineItem::Char(s as usize)]
    } else {
        chars_items(aligns, s, e - 1, vertical) + (if gap_before(aligns[e - 2], vertical) {
            seq![LineItem::WordSpace]
        } else {
            Seq::empty()
        }) + seq![LineItem::Char((e - 1) as usize)]
    }
}

/// The elements of a line: its characters and word spaces, then the line
/// break.
pub open spec fn run_items(aligns: Seq<PairAlignment>, r: (int, int, bool)) -> Seq<LineItem> {
    chars_items(aligns, r.0, r.1, r.2).push(LineItem::LineEnd)
}

/// Lays out the elements of one line.
pub fn line_items(aligns: &Vec<PairAlignment>, run: LineRun) -> (r: Vec<LineItem>)
    requires
        run.start < run.end <= aligns.len() + 1,
    ensures
        r@ == run_items(aligns@, (run.start as int, run.end as int, run.vertical)),
{
    let mut items: Vec<LineItem> = Vec::new();
    items.push(LineItem::Char(run.start));
    let mut c: usize = run.start + 1;
    while c < run.end
        invariant
            run.start < c <= run.end <= aligns.len() + 1,
            items@ == chars_items(aligns@, run.start as int, c as int, run.vertical),
        decreases run.end - c,
    {
        let a = aligns[c - 1];
        let gap = if run.vertical {
            a.vgap
        } else {
            a.hgap
        };
        let ghost before = items@;
        if gap {
            items.push(LineItem::WordSpace);
        }
        items.push(LineItem::Char(c));
        assert(items@ =~= chars_items(aligns@, run.start as int, c + 1, run.vertical));
        c = c + 1;
    }
    items.push(LineItem::LineEnd);
    items
}

/// The character indices among the elements, in order.
pub open spec fn item_chars(items: Seq<LineItem>) -> Seq<int>
    decreases items.len(),
{
    if items.len() == 0 {
        Seq::empty()
    } else {
        item_chars(items.drop_last()) + match items.last() {
            LineItem::Char(c) => seq![c as int],
            _ => Seq::empty(),
        }
    }
}

/// The indices `s..e`.
pub open spec fn index_range(s: int, e: int) -> Seq<int> {
    Seq::new((e - s) as nat, |j: int| s + j)
}

/// The character indices of the lines, line after line.
pub open spec fn lines_chars(aligns: Seq<PairAlignment>, runs: Seq<(int, int, bool)>) -> Seq<int>
    decreases runs.len(),
{
    if runs.len() == 0 {
        Seq::empty()
    } else {
        lines_chars(aligns, runs.drop_last()) + item_chars(run_items(aligns, runs.last()))
    }
}

proof fn lemma_item_chars_append(a: Seq<LineItem>, b: Seq<LineItem>)
    ensures
        item_chars(a + b) == item_chars(a) + item_chars(b),
    decreases b.len(),
{
    if b.len() == 0 {
        assert(a + b =~= a);
        assert(item_chars(b) =~= Seq::<int>::empty());
        assert(item_chars(a) + item_chars(b) =~= item_chars(a));
    } else {
        assert((a + b).drop_last() =~= a + b.drop_last());
        assert((a + b).last() == b.last());
        lemma_item_chars_append(a, b.drop_last());
        assert(item_chars(a) + item_chars(b) =~= item_chars(a) + item_chars(b.drop_last()) + match b.last() {
            LineItem::Char(c) => seq![c as int],
            _ => Seq::<int>::empty(),
        });
    }
}

proof fn lemma_chars_items_indices(aligns: Seq<PairAlignment>, s: int, e: int, v: bool)
    requires
        0 <= s < e <= usize::MAX,
    ensures
        item_chars(chars_items(aligns, s, e, v)) == index_range(s, e),
    decreases e - s,
{
    if e <= s + 1 {
        let one = seq![LineItem::Char(s as usize)];
        assert(item_chars(Seq::<LineItem>::empty()) =~= Seq::<int>::empty());
        assert(one.drop_last() =~= Seq::<LineItem>::empty());
        assert(item_chars(one) =~= index_range(s, e));
    } else {
        lemma_chars_items_indices(aligns, s, e - 1, v);
        let head = chars_items(aligns, s, e - 1, v);
        let mid: Seq<LineItem> = if gap_before(aligns[e - 2], v) {
            seq![LineItem::WordSpace]
        } else {
            Seq::empty()
        };
        let tail = seq![LineItem::Char((e - 1) as usize)];
        assert(item_chars(Seq::<LineItem>::empty()) =~= Seq::<int>::empty());
        lemma_item_chars_append(head, mid);
        lemma_item_chars_append(head + mid, tail);
        assert(mid.len() == 0 ==> mid =~= Seq::<LineItem>::empty());
        assert(item_chars(mid) =~= Seq::<int>::empty()) by {
            if mid.len() > 0 {
                assert(mid.drop_last() =~= Seq::<LineItem>::empty());
            }
        }
        assert(tail.drop_last() =~= Seq::<LineItem>::empty());
        assert(item_chars(tail) =~= seq![e - 1]);
        assert(index_range(s, e - 1) + Seq::<int>::empty() + seq![e - 1] =~= index_range(s, e));
    }
}

proof fn lemma_lines_chars_chain(aligns: Seq<PairAlignment>, runs: Seq<(int, int, bool)>)
    requires
        runs.len() > 0,
        forall|k: int| 0 <= k < runs.len() ==> 0 <= #[trigger] runs[k].0 && runs[k].1 <= usize::MAX,
        forall|k: int| 0 <= k < runs.len() ==> #[trigger] runs[k].0 < runs[k].1,
        forall|k: int| #![trigger runs[k]] 0 <= k < runs.len() - 1 ==> runs[k].1 == runs[k + 1].0,
    ensures
        runs[0].0 < runs.last().1,
        lines_chars(aligns, runs) == index_range(runs[0].0, runs.last().1),
    decreases runs.len(),
{
    let last = runs.last();
    assert(runs[runs.len() - 1] == last);
    let r = last;
    lemma_chars_items_indices(aligns, r.0, r.1, r.2);
    let items = chars_items(aligns, r.0, r.1, r.2);
    assert(run_items(aligns, r).drop_last() =~= items);
    assert(item_chars(run_items(aligns, r)) =~= item_chars(items));
    if runs.len() == 1 {
        assert(runs.drop_last() =~= Seq::<(int, int, bool)>::empty());
        assert(lines_chars(aligns, Seq::<(int, int, bool)>::empty()) =~= Seq::<int>::empty());
        assert(lines_chars(aligns, runs) =~= index_range(runs[0].0, runs.last().1));
    } else {
        let front = runs.drop_last();
        assert(front[0] == runs[0]);
        assert(front.last() == runs[runs.len() - 2]);
        assert(front.last().1 == r.0);
        assert(runs[runs.len() - 2].1 == runs[runs.len() - 1].0);
        assert forall|k: int| 0 <= k < front.len() implies #[trigger] front[k].0 < front[k].1 by {
            assert(front[k] == runs[k]);
        }
        assert forall|k: int| 0 <= k < front.len() implies 0 <= #[trigger] front[k].0 && front[k].1
            <= usize::MAX by {
            assert(front[k] == runs[k]);
        }
        assert forall|k: int| #![trigger front[k]] 0 <= k < front.len() - 1 implies front[k].1
            == front[k + 1].0 by {
            assert(front[k] == runs[k]);
            assert(front[k + 1] == runs[k + 1]);
        }
        assert(front.last().1 < r.1);
        lemma_lines_chars_chain(aligns, front);
        assert(index_range(runs[0].0, r.0) + index_range(r.0, r.1) =~= index_range(
            runs[0].0,
            r.1,
        ));
    }
}

/// The planned lines hold every character once, in order: read line after
/// line, their characters are `0..char_count`.
pub proof fn lemma_group_objects_keeps_order(char_count: int, aligns: Seq<PairAlignment>)
    requires
        pairs_fit(char_count, aligns),
        char_count <= usize::MAX,
    ensures
        lines_chars(aligns, line_runs(char_count, aligns)) == index_range(0, char_count),
{
    lemma_line_runs_partition(char_count, aligns);
    let runs = line_runs(char_count, aligns);
    if char_count == 0 {
        assert(index_range(0, char_count) =~= Seq::<int>::empty());
    } else {
        lemma_partition_bounds(runs, char_count);
        lemma_lines_chars_chain(aligns, runs);
    }
}

/// A text line with its elements laid out.
#[derive(Debug, Clone)]
pub struct PlannedLine {
    pub run: LineRun,
    pub items: Vec<LineItem>,
}

/// Groups `char_count` characters into text lines, given how each pair of
/// consecutive characters lines up: the lines in order, each with its
/// characters, word spaces and closing line break.
pub fn group_objects(char_count: usize, aligns: &Vec<PairAlignment>) -> (r: Vec<PlannedLine>)
    requires
        pairs_fit(char_count as int, aligns@),
    ensures
        r.len() == line_runs(char_count as int, aligns@).len(),
        forall|k: int|
            #![trigger r[k]]
            0 <= k < r.len() ==> {
                let run = line_runs(char_count as int, aligns@)[k];
                &&& (r[k].run.start as int, r[k].run.end as int, r[k].run.vertical) == run
                &&& r[k].items@ == run_items(aligns@, run)
            },
{
    let runs = segment_lines(char_count, aligns);
    let ghost spec_runs = line_runs(char_count as int, aligns@);
    proof {
        lemma_line_runs_partition(char_count as int, aligns@);
        lemma_partition_bounds(spec_runs, char_count as int);
    }
    let mut lines: Vec<PlannedLine> = Vec::new();
    let mut k: usize = 0;
    while k < runs.len()
        invariant
            k <= runs.len(),
            runs_view(runs@) == spec_runs,
            forall|j: int| 0 <= j < spec_runs.len() ==> 0 <= #[trigger] spec_runs[j].0 && spec_runs[j].0 < spec_runs[j].1 && spec_runs[j].1 <= char_count,
            pairs_fit(char_count as int, aligns@),
            lines.len() == k,
            forall|j: int|
                #![trigger lines[j]]
                0 <= j < k ==> {
                    let run = spec_runs[j];
                    &&& (lines[j].run.start as int, lines[j].run.end as int, lines[j].run.vertical)
                        == run
                    &&& lines[j].items@ == run_items(aligns@, run)
                },
        decreases runs.len() - k,
    {
        let run = runs[k];
        assert(runs_view(runs@)[k as int] == (run.start as int, run.end as int, run.vertical));
        assert(0 <= spec_runs[k as int].0);
        let items = line_items(aligns, run);
        lines.push(PlannedLine { run, items });
        k = k + 1;
    }
    lines
}

/// What the line-to-box merging knows after some lines: the box of each
/// line, the lines of each box so far, and which boxes are still open
/// (not yet merged into a later one).
pub type BoxState = (Seq<Option<usize>>, Seq<Seq<usize>>, Seq<bool>);

/// The members gathered for a new box from the first `k` aligned lines:
/// each aligned line, followed by all lines of its box when that box is
/// still open, which closes it. Gives the members and the open flags.
pub open spec fn absorb(
    line_box: Seq<Option<usize>>,
    members: Seq<Seq<usize>>,
    open: Seq<bool>,
    start: Seq<usize>,
    aligned: Seq<usize>,
    k: int,
) -> (Seq<usize>, Seq<bool>)
    decreases k,
{
    if k <= 0 {
        (start, open)
    } else {
        let (acc, live) = absorb(line_box, members, open, start, aligned, k - 1);
        let j = aligned[k - 1];
        match line_box[j as int] {
            Some(b) => if live[b as int] {
                (acc.push(j) + members[b as int], live.update(b as int, false))
            } else {
                (acc.push(j), live)
            },
            None => (acc.push(j), live),
        }
    }
}

/// The elements of `s` at their first occurrence, in order.
pub open spec fn first_occurrences(s: Seq<usize>) -> Seq<usize>
    decreases s.len(),
{
    if s.len() == 0 {
        Seq::empty()
    } else {
        let u = first_occurrences(s.drop_last());
        if u.contains(s.last()) {
            u
        } else {
            u.push(s.last())
        }
    }
}

/// Line `i` opens a new box: itself, its aligned lines and the boxes they
/// are in, each line once; every one of them now belongs to the new box.
pub open spec fn box_step(state: BoxState, i: int, aligned: Seq<usize>) -> BoxState {
    let (line_box, members, open) = state;
    let (acc, live) = absorb(line_box, members, open, seq![i as usize], aligned, aligned.len() as int);
    let u = first_occurrences(acc);
    let b = members.len();
    (
        Seq::new(line_box.len(), |m: int| if u.contains(m as usize) { Some(b as usize) } else { line_box[m] }),
        members.push(u),
        live.push(true),
    )
}

/// The state after lines `0..i`; `aligned[i]` lists the lines aligned with
/// line `i`.
pub open spec fn boxes_after(aligned: Seq<Seq<usize>>, i: int) -> BoxState
    decreases i,
{
    if i <= 0 {
        (Seq::new(aligned.len(), |m: int| None), Seq::empty(), Seq::empty())
    } else {
        box_step(boxes_after(aligned, i - 1), i - 1, aligned[i - 1])
    }
}

/// The boxes reached from lines `0..k`, each the first time one of its
/// lines comes up, with the writing mode of its first line; and which
/// boxes came up.
pub open spec fn emitted(state: BoxState, vertical: Seq<bool>, k: int) -> (
    Seq<(bool, Seq<usize>)>,
    Seq<bool>,
)
    decreases k,
{
    let (line_box, members, open) = state;
    if k <= 0 {
        (Seq::empty(), Seq::new(members.len(), |b: int| false))
    } else {
        let (out, done) = emitted(state, vertical, k - 1);
        match line_box[k - 1] {
            None => (out, done),
            Some(b) => if done[b as int] {
                (out, done)
            } else {
                let done2 = done.update(b as int, true);
                if open[b as int] && members[b as int].len() > 0 {
                    (out.push((vertical[members[b as int][0] as int], members[b as int])), done2)
                } else {
                    (out, done2)
                }
            },
        }
    }
}

/// The text boxes of the lines: in the order their first line comes up,
/// each with its writing mode and its lines in merge order.
pub open spec fn planned_boxes(aligned: Seq<Seq<usize>>, vertical: Seq<bool>) -> Seq<
    (bool, Seq<usize>),
> {
    emitted(boxes_after(aligned, aligned.len() as int), vertical, aligned.len() as int).0
}

/// No element occurs twice.
pub open spec fn no_dups(s: Seq<usize>) -> bool {
    forall|p: int, q: int| 0 <= p < q < s.len() ==> #[trigger] s[p] != #[trigger] s[q]
}

/// Some box holds line `m`.
pub open spec fn in_some_box(boxes: Seq<(bool, Seq<usize>)>, m: usize) -> bool {
    exists|t: int| 0 <= t < boxes.len() && #[trigger] boxes[t].1.contains(m)
}

/// Every line is among the lines aligned with it.
pub open spec fn self_aligned(aligned: Seq<Seq<usize>>) -> bool {
    forall|i: int| 0 <= i < aligned.len() ==> #[trigger] aligned[i].contains(i as usize)
}

/// The merging state after `i` of `n` lines is consistent: a line's box is
/// open and holds it, an open box's lines all name it, no box holds a line
/// twice, and every line seen so far has a box.
pub open spec fn box_state_fits(state: BoxState, n: int, i: int) -> bool {
    let (lb, ms, op) = state;
    &&& lb.len() == n
    &&& ms.len() == i
    &&& op.len() == i
    &&& forall|m: int|
        0 <= m < n ==> match #[trigger] lb[m] {
            Some(b) => b < i && op[b as int] && ms[b as int].contains(m as usize),
            None => true,
        }
    &&& forall|b: int, t: int|
        0 <= b < i && op[b] && 0 <= t < ms[b].len() ==> #[trigger] ms[b][t] < n && lb[ms[b][t] as int]
            == Some(b as usize)
    &&& forall|b: int| 0 <= b < i ==> no_dups(#[trigger] ms[b])
    &&& forall|m: int| 0 <= m < i ==> #[trigger] lb[m] is Some
}

/// The line's box is absent or closed.
pub open spec fn box_closed(lb: Seq<Option<usize>>, live: Seq<bool>, x: usize) -> bool {
    match lb[x as int] {
        Some(c) => !live[c as int],
        None => true,
    }
}

proof fn lemma_first_occurrences(s: Seq<usize>)
    ensures
        forall|x: usize| first_occurrences(s).contains(x) <==> s.contains(x),
        no_dups(first_occurrences(s)),
    decreases s.len(),
{
    if s.len() > 0 {
        let d = s.drop_last();
        lemma_first_occurrences(d);
        let u = first_occurrences(d);
        assert forall|x: usize| first_occurrences(s).contains(x) <==> s.contains(x) by {
            assert(u.contains(x) <==> d.contains(x));
            if s.contains(x) {
                let p = choose|p: int| 0 <= p < s.len() && #[trigger] s[p] == x;
                if p < s.len() - 1 {
                    assert(d[p] == x);
                    assert(d.contains(x));
                    if !u.contains(s.last()) {
                        let w = choose|w: int| 0 <= w < u.len() && #[trigger] u[w] == x;
                        assert(u.push(s.last())[w] == x);
                    }
                } else {
                    if !u.contains(s.last()) {
                        assert(u.push(s.last())[u.len() as int] == s.last());
                    }
                }
            }
            if first_occurrences(s).contains(x) {
                if u.contains(x) {
                    assert(d.contains(x));
                    let p = choose|p: int| 0 <= p < d.len() && #[trigger] d[p] == x;
                    assert(s[p] == x);
                } else {
                    let v = u.push(s.last());
                    let w = choose|w: int| 0 <= w < v.len() && #[trigger] v[w] == x;
                    if w < u.len() {
                        assert(u[w] == x);
                    }
                    assert(x == s.last());
                    assert(s[s.len() - 1] == x);
                }
            }
        }
        if !u.contains(s.last()) {
            let v = u.push(s.last());
            assert forall|p: int, q: int| 0 <= p < q < v.len() implies #[trigger] v[p] != #[trigger] v[q] by {
                if q == v.len() - 1 {
                    assert(v[p] == u[p]);
                } else {
                    assert(v[p] == u[p] && v[q] == u[q]);
                }
            }
        }
    }
}

proof fn lemma_absorb_facts(
    lb: Seq<Option<usize>>,
    ms: Seq<Seq<usize>>,
    op: Seq<bool>,
    start: Seq<usize>,
    nbrs: Seq<usize>,
    k: int,
    n: int,
    i: int,
)
    requires
        box_state_fits((lb, ms, op), n, i),
        0 <= k <= nbrs.len(),
        forall|t: int| 0 <= t < nbrs.len() ==> #[trigger] nbrs[t] < n,
        forall|p: int| 0 <= p < start.len() ==> #[trigger] start[p] < n,
    ensures
        ({
            let (acc, live) = absorb(lb, ms, op, start, nbrs, k);
            &&& live.len() == op.len()
            &&& forall|b: int| 0 <= b < i && #[trigger] live[b] ==> op[b]
            &&& acc.len() >= start.len()
            &&& forall|p: int| 0 <= p < start.len() ==> #[trigger] acc[p] == start[p]
            &&& forall|p: int| 0 <= p < acc.len() ==> #[trigger] acc[p] < n
            &&& forall|b: int, t: int|
                0 <= b < i && op[b] && !live[b] && 0 <= t < ms[b].len() ==> acc.contains(
                    #[trigger] ms[b][t],
                )
            &&& forall|p: int| start.len() <= p < acc.len() ==> box_closed(lb, live, #[trigger] acc[p])
            &&& forall|t: int| 0 <= t < k ==> box_closed(lb, live, #[trigger] nbrs[t])
        }),
    decreases k,
{
    if k > 0 {
        lemma_absorb_facts(lb, ms, op, start, nbrs, k - 1, n, i);
        let (acc0, live0) = absorb(lb, ms, op, start, nbrs, k - 1);
        let (acc, live) = absorb(lb, ms, op, start, nbrs, k);
        let j = nbrs[k - 1];
        assert(j < n);
        assert forall|p: int| 0 <= p < acc0.len() implies #[trigger] acc[p] == acc0[p] by {
            match lb[j as int] {
                Some(c) => if live0[c as int] {
                    assert(acc == acc0.push(j) + ms[c as int]);
                } else {
                },
                None => {},
            }
        }
        assert(acc[acc0.len() as int] == j) by {
            match lb[j as int] {
                Some(c) => if live0[c as int] {
                    assert(acc == acc0.push(j) + ms[c as int]);
                } else {
                },
                None => {},
            }
        }
        match lb[j as int] {
            Some(c) => {
                assert(c < i && op[c as int]);
                if live0[c as int] {
                    let mc = ms[c as int];
                    assert(acc == acc0.push(j) + mc);
                    assert(live == live0.update(c as int, false));
                    assert forall|t: int| 0 <= t < mc.len() implies #[trigger] acc[acc0.len() + 1 + t] == mc[t] by {
                    }
                    assert forall|p: int| 0 <= p < acc.len() implies #[trigger] acc[p] < n by {
                        if p > acc0.len() {
                            assert(acc[p] == mc[p - acc0.len() - 1]);
                        }
                    }
                    assert forall|b: int, t: int|
                        0 <= b < i && op[b] && !live[b] && 0 <= t < ms[b].len() implies acc.contains(
                        #[trigger] ms[b][t],
                    ) by {
                        if b == c as int {
                            assert(acc[acc0.len() + 1 + t] == mc[t]);
                        } else {
                            assert(acc0.contains(ms[b][t]));
                            let p = choose|p: int| 0 <= p < acc0.len() && #[trigger] acc0[p] == ms[b][t];
                            assert(acc[p] == ms[b][t]);
                        }
                    }
                    assert forall|p: int| start.len() <= p < acc.len() implies box_closed(lb, live, #[trigger] acc[p]) by {
                        if p < acc0.len() {
                            assert(box_closed(lb, live0, acc0[p]));
                        } else if p > acc0.len() {
                            let t = p - acc0.len() - 1;
                            assert(acc[p] == mc[t]);
                            assert(lb[mc[t] as int] == Some(c));
                        }
                    }
                    assert forall|t: int| 0 <= t < k implies box_closed(lb, live, #[trigger] nbrs[t]) by {
                        if t < k - 1 {
                            assert(box_closed(lb, live0, nbrs[t]));
                        }
                    }
                } else {
                    assert(acc == acc0.push(j));
                    assert forall|b: int, t: int|
                        0 <= b < i && op[b] && !live[b] && 0 <= t < ms[b].len() implies acc.contains(
                        #[trigger] ms[b][t],
                    ) by {
                        assert(acc0.contains(ms[b][t]));
                        let p = choose|p: int| 0 <= p < acc0.len() && #[trigger] acc0[p] == ms[b][t];
                        assert(acc[p] == ms[b][t]);
                    }
                    assert forall|p: int| start.len() <= p < acc.len() implies box_closed(lb, live, #[trigger] acc[p]) by {
                        if p < acc0.len() {
                            assert(box_closed(lb, live0, acc0[p]));
                        }
                    }
                    assert forall|t: int| 0 <= t < k implies box_closed(lb, live, #[trigger] nbrs[t]) by {
                        if t < k - 1 {
                            assert(box_closed(lb, live0, nbrs[t]));
                        }
                    }
                }
            },
            None => {
                assert(acc == acc0.push(j));
                assert forall|b: int, t: int|
                    0 <= b < i && op[b] && !live[b] && 0 <= t < ms[b].len() implies acc.contains(
                    #[trigger] ms[b][t],
                ) by {
                    assert(acc0.contains(ms[b][t]));
                    let p = choose|p: int| 0 <= p < acc0.len() && #[trigger] acc0[p] == ms[b][t];
                    assert(acc[p] == ms[b][t]);
                }
                assert forall|p: int| start.len() <= p < acc.len() implies box_closed(lb, live, #[trigger] acc[p]) by {
                    if p < acc0.len() {
                        assert(box_closed(lb, live0, acc0[p]));
                    }
                }
                assert forall|t: int| 0 <= t < k implies box_closed(lb, live, #[trigger] nbrs[t]) by {
                    if t < k - 1 {
                        assert(box_closed(lb, live0, nbrs[t]));
                    }
                }
            },
        }
    }
}

proof fn lemma_box_step_fits(state: BoxState, n: int, i: int, nbrs: Seq<usize>)
    requires
        box_state_fits(state, n, i),
        0 <= i < n <= usize::MAX,
        nbrs.contains(i as usize),
        forall|t: int| 0 <= t < nbrs.len() ==> #[trigger] nbrs[t] < n,
    ensures
        box_state_fits(box_step(state, i, nbrs), n, i + 1),
{
    let (lb, ms, op) = state;
    let start = seq![i as usize];
    lemma_absorb_facts(lb, ms, op, start, nbrs, nbrs.len() as int, n, i);
    let (acc, live) = absorb(lb, ms, op, start, nbrs, nbrs.len() as int);
    let u = first_occurrences(acc);
    lemma_first_occurrences(acc);
    let next = box_step(state, i, nbrs);
    let (lb2, ms2, op2) = next;
    assert(lb2 == Seq::new(lb.len(), |m: int| if u.contains(m as usize) { Some(ms.len() as usize) } else { lb[m] }));
    assert(ms2 == ms.push(u));
    assert(op2 == live.push(true));
    let t0 = choose|t: int| 0 <= t < nbrs.len() && #[trigger] nbrs[t] == i as usize;
    assert(box_closed(lb, live, nbrs[t0]));
    assert(acc[0] == i as usize);
    assert forall|p: int| 0 <= p < acc.len() implies box_closed(lb, live, #[trigger] acc[p]) by {
        if p >= 1 {
            assert(box_closed(lb, live, acc[p]));
        }
    }
    assert(acc.contains(i as usize));
    assert(u.contains(i as usize));
    assert forall|m: int| 0 <= m < n implies match #[trigger] lb2[m] {
        Some(b) => b < i + 1 && op2[b as int] && ms2[b as int].contains(m as usize),
        None => true,
    } by {
        if u.contains(m as usize) {
            assert(lb2[m] == Some(i as usize));
            assert(ms2[i] == u);
        } else {
            assert(lb2[m] == lb[m]);
            match lb[m] {
                Some(b) => {
                    assert(b < i && op[b as int] && ms[b as int].contains(m as usize));
                    if !live[b as int] {
                        let t = choose|t: int| 0 <= t < ms[b as int].len() && #[trigger] ms[b as int][t] == m as usize;
                        assert(acc.contains(ms[b as int][t]));
                        assert(false);
                    }
                    assert(ms2[b as int] == ms[b as int]);
                    assert(op2[b as int] == live[b as int]);
                },
                None => {},
            }
        }
    }
    assert forall|b: int, t: int|
        0 <= b < i + 1 && op2[b] && 0 <= t < ms2[b].len() implies #[trigger] ms2[b][t] < n && lb2[ms2[b][t] as int]
        == Some(b as usize) by {
        if b == i {
            assert(ms2[b] == u);
            assert(u.contains(u[t]));
            assert(acc.contains(u[t]));
            let p = choose|p: int| 0 <= p < acc.len() && #[trigger] acc[p] == u[t];
            assert(acc[p] < n);
        } else {
            assert(ms2[b] == ms[b]);
            assert(op2[b] == live[b]);
            assert(op[b]);
            let x = ms[b][t];
            assert(x < n && lb[x as int] == Some(b as usize));
            if u.contains(x) {
                assert(acc.contains(x));
                let p = choose|p: int| 0 <= p < acc.len() && #[trigger] acc[p] == x;
                assert(box_closed(lb, live, acc[p]));
                assert(false);
            }
        }
    }
    assert forall|b: int| 0 <= b < i + 1 implies no_dups(#[trigger] ms2[b]) by {
        if b < i {
            assert(ms2[b] == ms[b]);
        }
    }
    assert forall|m: int| 0 <= m < i + 1 implies #[trigger] lb2[m] is Some by {
        if m < i && !u.contains(m as usize) {
            assert(lb2[m] == lb[m]);
        }
    }
}

proof fn lemma_boxes_after_fits(aligned: Seq<Seq<usize>>, i: int)
    requires
        0 <= i <= aligned.len() <= usize::MAX,
        indices_below(aligned, aligned.len() as int),
        self_aligned(aligned),
    ensures
        box_state_fits(boxes_after(aligned, i), aligned.len() as int, i),
    decreases i,
{
    let n = aligned.len() as int;
    if i == 0 {
        let (lb, ms, op) = boxes_after(aligned, 0);
        assert(lb == Seq::new(aligned.len(), |m: int| None::<usize>));
    } else {
        lemma_boxes_after_fits(aligned, i - 1);
        let nbrs = aligned[i - 1];
        assert(nbrs.contains((i - 1) as usize));
        assert forall|t: int| 0 <= t < nbrs.len() implies #[trigger] nbrs[t] < n by {
            assert(aligned[i - 1][t] < n);
        }
        lemma_box_step_fits(boxes_after(aligned, i - 1), n, i - 1, nbrs);
    }
}

proof fn lemma_emitted_done(state: BoxState, vertical: Seq<bool>, k: int, n: int, i: int)
    requires
        box_state_fits(state, n, i),
        0 <= k <= n,
    ensures
        emitted(state, vertical, k).1.len() == i,
        forall|m: int| 0 <= m < k ==> match #[trigger] state.0[m] {
            Some(b) => emitted(state, vertical, k).1[b as int],
            None => true,
        },
    decreases k,
{
    let (lb, ms, op) = state;
    if k > 0 {
        lemma_emitted_done(state, vertical, k - 1, n, i);
        let (out0, done0) = emitted(state, vertical, k - 1);
        let (out, done) = emitted(state, vertical, k);
        assert forall|m: int| 0 <= m < k implies match #[trigger] lb[m] {
            Some(c) => done[c as int],
            None => true,
        } by {
            match lb[k - 1] {
                None => {},
                Some(b) => if !done0[b as int] {
                    assert(done == done0.update(b as int, true));
                },
            }
            if m < k - 1 {
                match lb[m] {
                    Some(c) => assert(done0[c as int]),
                    None => {},
                }
            }
        }
    }
}

proof fn lemma_emitted_entries(state: BoxState, vertical: Seq<bool>, k: int, n: int, i: int)
    requires
        box_state_fits(state, n, i),
        0 <= k <= n,
    ensures
        emitted(state, vertical, k).1.len() == i,
        forall|t: int|
            #![trigger emitted(state, vertical, k).0[t]]
            0 <= t < emitted(state, vertical, k).0.len() ==> exists|b: int|
                #![trigger state.1[b]]
                0 <= b < i && state.2[b] && emitted(state, vertical, k).0[t].1 == state.1[b]
                    && emitted(state, vertical, k).1[b],
    decreases k,
{
    let (lb, ms, op) = state;
    if k > 0 {
        lemma_emitted_entries(state, vertical, k - 1, n, i);
        let (out0, done0) = emitted(state, vertical, k - 1);
        let (out, done) = emitted(state, vertical, k);
        match lb[k - 1] {
            None => {},
            Some(b) => if !done0[b as int] {
                let bb = b as int;
                assert(done == done0.update(bb, true));
                if op[bb] && ms[bb].len() > 0 {
                    assert(out == out0.push((vertical[ms[bb][0] as int], ms[bb])));
                    assert forall|t: int| 0 <= t < out.len() implies exists|c: int|
                        0 <= c < i && op[c] && #[trigger] out[t].1 == ms[c] && done[c] by {
                        if t < out0.len() {
                            let c = choose|c: int| 0 <= c < i && op[c] && #[trigger] out0[t].1 == ms[c] && done0[c];
                            assert(out[t] == out0[t]);
                            assert(done[c]);
                        } else {
                            assert(out[t].1 == ms[bb]);
                        }
                    }
                } else {
                    assert forall|t: int| 0 <= t < out.len() implies exists|c: int|
                        0 <= c < i && op[c] && #[trigger] out[t].1 == ms[c] && done[c] by {
                        let c = choose|c: int| 0 <= c < i && op[c] && #[trigger] out0[t].1 == ms[c] && done0[c];
                        assert(done[c]);
                    }
                }
            },
        }
    }
}

proof fn lemma_emitted_cover(state: BoxState, vertical: Seq<bool>, k: int, n: int, i: int)
    requires
        box_state_fits(state, n, i),
        0 <= k <= n,
    ensures
        emitted(state, vertical, k).1.len() == i,
        forall|b: int|
            0 <= b < i && #[trigger] emitted(state, vertical, k).1[b] && state.2[b] && state.1[b].len() > 0
                ==> exists|t: int|
                #![trigger emitted(state, vertical, k).0[t]]
                0 <= t < emitted(state, vertical, k).0.len() && emitted(state, vertical, k).0[t].1 == state.1[b],
    decreases k,
{
    let (lb, ms, op) = state;
    if k > 0 {
        lemma_emitted_cover(state, vertical, k - 1, n, i);
        let (out0, done0) = emitted(state, vertical, k - 1);
        let (out, done) = emitted(state, vertical, k);
        match lb[k - 1] {
            None => {},
            Some(b) => if !done0[b as int] {
                let bb = b as int;
                assert(done == done0.update(bb, true));
                if op[bb] && ms[bb].len() > 0 {
                    assert(out == out0.push((vertical[ms[bb][0] as int], ms[bb])));
                    assert forall|c: int| 0 <= c < i && #[trigger] done[c] && op[c] && ms[c].len() > 0 implies exists|t: int|
                        0 <= t < out.len() && #[trigger] out[t].1 == ms[c] by {
                        if c == bb {
                            assert(out[out0.len() as int].1 == ms[c]);
                        } else {
                            assert(done0[c]);
                            let t = choose|t: int| 0 <= t < out0.len() && #[trigger] out0[t].1 == ms[c];
                            assert(out[t] == out0[t]);
                        }
                    }
                } else {
                    assert forall|c: int| 0 <= c < i && #[trigger] done[c] && op[c] && ms[c].len() > 0 implies exists|t: int|
                        0 <= t < out.len() && #[trigger] out[t].1 == ms[c] by {
                        assert(c != bb);
                        assert(done0[c]);
                    }
                }
            },
        }
    }
}

proof fn lemma_emitted_disjoint(state: BoxState, vertical: Seq<bool>, k: int, n: int, i: int)
    requires
        box_state_fits(state, n, i),
        0 <= k <= n,
        i <= usize::MAX,
    ensures
        forall|t1: int, t2: int, x: usize|
            0 <= t1 < t2 < emitted(state, vertical, k).0.len() && #[trigger] emitted(state, vertical, k).0[t1].1.contains(x)
                ==> !#[trigger] emitted(state, vertical, k).0[t2].1.contains(x),
    decreases k,
{
    let (lb, ms, op) = state;
    if k > 0 {
        lemma_emitted_disjoint(state, vertical, k - 1, n, i);
        lemma_emitted_entries(state, vertical, k - 1, n, i);
        let (out0, done0) = emitted(state, vertical, k - 1);
        let (out, done) = emitted(state, vertical, k);
        match lb[k - 1] {
            None => {},
            Some(b) => if !done0[b as int] {
                let bb = b as int;
                if op[bb] && ms[bb].len() > 0 {
                    assert(out == out0.push((vertical[ms[bb][0] as int], ms[bb])));
                    assert forall|t1: int, t2: int, x: usize|
                        0 <= t1 < t2 < out.len() && #[trigger] out[t1].1.contains(x) implies !#[trigger] out[t2].1.contains(x) by {
                        assert(out[t1] == out0[t1]);
                        if t2 < out0.len() {
                            assert(out[t2] == out0[t2]);
                        } else if out[t2].1.contains(x) {
                            let c = choose|c: int| 0 <= c < i && op[c] && #[trigger] out0[t1].1 == ms[c] && done0[c];
                            assert(c != bb);
                            let p = choose|p: int| 0 <= p < ms[c].len() && #[trigger] ms[c][p] == x;
                            assert(out[t2].1 == ms[bb]);
                            let q = choose|q: int| 0 <= q < ms[bb].len() && #[trigger] ms[bb][q] == x;
                            assert(lb[ms[c][p] as int] == Some(c as usize));
                            assert(lb[ms[bb][q] as int] == Some(bb as usize));
                            assert(c as usize == bb as usize);
                        }
                    }
                }
            },
        }
    }
}

/// When every line is among the lines aligned with it (as for any line of
/// positive extent), the boxes split the lines: each line is in exactly one
/// box, once.
pub proof fn lemma_boxes_partition_lines(aligned: Seq<Seq<usize>>, vertical: Seq<bool>)
    requires
        aligned.len() <= usize::MAX,
        indices_below(aligned, aligned.len() as int),
        self_aligned(aligned),
    ensures
        ({
            let out = planned_boxes(aligned, vertical);
            &&& forall|m: usize| m < aligned.len() ==> #[trigger] in_some_box(out, m)
            &&& forall|t1: int, t2: int, x: usize|
                0 <= t1 < t2 < out.len() && #[trigger] out[t1].1.contains(x) ==> !#[trigger] out[t2].1.contains(x)
            &&& forall|t: int| 0 <= t < out.len() ==> no_dups(#[trigger] out[t].1)
        }),
{
    let n = aligned.len() as int;
    lemma_boxes_after_fits(aligned, n);
    let state = boxes_after(aligned, n);
    let (lb, ms, op) = state;
    lemma_emitted_done(state, vertical, n, n, n);
    lemma_emitted_entries(state, vertical, n, n, n);
    lemma_emitted_cover(state, vertical, n, n, n);
    lemma_emitted_disjoint(state, vertical, n, n, n);
    let (out, done) = emitted(state, vertical, n);
    assert forall|m: usize| m < n implies #[trigger] in_some_box(out, m) by {
        assert(lb[m as int] is Some);
        let b = lb[m as int].unwrap();
        assert(done[b as int]);
        assert(ms[b as int].contains(m));
        let t = choose|t: int| 0 <= t < out.len() && #[trigger] out[t].1 == ms[b as int];
        assert(out[t].1.contains(m));
    }
    assert forall|t: int| 0 <= t < out.len() implies no_dups(#[trigger] out[t].1) by {
        assert(out[t] == emitted(state, vertical, n).0[t]);
        let c = choose|c: int| #![trigger state.1[c]] 0 <= c < n && state.2[c] && emitted(state, vertical, n).0[t].1 == state.1[c] && emitted(state, vertical, n).1[c];
        assert(no_dups(ms[c]));
    }
}

proof fn lemma_absorb_len(
    line_box: Seq<Option<usize>>,
    members: Seq<Seq<usize>>,
    open: Seq<bool>,
    start: Seq<usize>,
    aligned: Seq<usize>,
    k: int,
)
    requires
        k <= aligned.len(),
        forall|t: int| 0 <= t < aligned.len() ==> #[trigger] aligned[t] < line_box.len(),
        forall|m: int| 0 <= m < line_box.len() ==> match #[trigger] line_box[m] {
            Some(b) => b < open.len(),
            None => true,
        },
    ensures
        absorb(line_box, members, open, start, aligned, k).1.len() == open.len(),
    decreases k,
{
    if k > 0 {
        lemma_absorb_len(line_box, members, open, start, aligned, k - 1);
    }
}

proof fn lemma_boxes_after_lists(aligned: Seq<Seq<usize>>, i: int)
    requires
        0 <= i <= aligned.len(),
        indices_below(aligned, aligned.len() as int),
    ensures
        ({
            let (lb, ms, op) = boxes_after(aligned, i);
            &&& lb.len() == aligned.len()
            &&& ms.len() == i
            &&& op.len() == i
            &&& forall|m: int| 0 <= m < lb.len() ==> match #[trigger] lb[m] {
                Some(b) => b < i,
                None => true,
            }
            &&& forall|b: int| 0 <= b < i ==> no_dups(#[trigger] ms[b])
        }),
    decreases i,
{
    if i > 0 {
        lemma_boxes_after_lists(aligned, i - 1);
        let state = boxes_after(aligned, i - 1);
        let (lb, ms, op) = state;
        let (acc, live) = absorb(lb, ms, op, seq![(i - 1) as usize], aligned[i - 1], aligned[i - 1].len() as int);
        assert forall|t: int| 0 <= t < aligned[i - 1].len() implies #[trigger] aligned[i - 1][t] < lb.len() by {
            assert(aligned[i - 1][t] < aligned.len());
        }
        lemma_absorb_len(lb, ms, op, seq![(i - 1) as usize], aligned[i - 1], aligned[i - 1].len() as int);
        lemma_first_occurrences(acc);
        let (lb2, ms2, op2) = boxes_after(aligned, i);
        assert(ms2 == ms.push(first_occurrences(acc)));
        assert forall|b: int| 0 <= b < i implies no_dups(#[trigger] ms2[b]) by {
            if b < i - 1 {
                assert(ms2[b] == ms[b]);
            }
        }
    }
}

proof fn lemma_emitted_lists(state: BoxState, vertical: Seq<bool>, k: int)
    requires
        0 <= k <= state.0.len(),
        forall|m: int| 0 <= m < state.0.len() ==> match #[trigger] state.0[m] {
            Some(b) => b < state.1.len(),
            None => true,
        },
    ensures
        forall|t: int|
            #![trigger emitted(state, vertical, k).0[t]]
            0 <= t < emitted(state, vertical, k).0.len() ==> exists|b: int|
                #![trigger state.1[b]]
                0 <= b < state.1.len() && emitted(state, vertical, k).0[t].1 == state.1[b],
    decreases k,
{
    if k > 0 {
        lemma_emitted_lists(state, vertical, k - 1);
        let (lb, ms, op) = state;
        let (out0, done0) = emitted(state, vertical, k - 1);
        let (out, done) = emitted(state, vertical, k);
        assert forall|t: int| #![trigger out[t]] 0 <= t < out.len() implies exists|c: int|
            #![trigger ms[c]]
            0 <= c < ms.len() && out[t].1 == ms[c] by {
            if t < out0.len() {
                assert(out[t] == out0[t]);
            } else {
                let b = lb[k - 1].unwrap();
                assert(out[t].1 == ms[b as int]);
            }
        }
    }
}

/// Every box lists each of its lines once.
pub proof fn lemma_box_lines_distinct(aligned: Seq<Seq<usize>>, vertical: Seq<bool>)
    requires
        indices_below(aligned, aligned.len() as int),
    ensures
        forall|t: int| 0 <= t < planned_boxes(aligned, vertical).len() ==> no_dups(
            #[trigger] planned_boxes(aligned, vertical)[t].1,
        ),
{
    let n = aligned.len() as int;
    lemma_boxes_after_lists(aligned, n);
    let state = boxes_after(aligned, n);
    lemma_emitted_lists(state, vertical, n);
    let out = planned_boxes(aligned, vertical);
    assert forall|t: int| 0 <= t < out.len() implies no_dups(#[trigger] out[t].1) by {
        assert(out[t] == emitted(state, vertical, n).0[t]);
        let b = choose|b: int| #![trigger state.1[b]] 0 <= b < state.1.len() && emitted(state, vertical, n).0[t].1 == state.1[b];
        assert(no_dups(state.1[b]));
    }
}

/// A text box: its writing mode and the indices of its lines.
#[derive(Debug, Clone)]
pub struct PlannedBox {
    pub vertical: bool,
    pub lines: Vec<usize>,
}

/// The boxes as `(vertical, lines)` pairs.
pub open spec fn boxes_view(boxes: Seq<PlannedBox>) -> Seq<(bool, Seq<usize>)> {
    boxes.map_values(|b: PlannedBox| (b.vertical, b.lines@))
}

/// The lists as sequences.
pub open spec fn lists_view(lists: Seq<Vec<usize>>) -> Seq<Seq<usize>> {
    lists.map_values(|v: Vec<usize>| v@)
}

/// Every index held is a line index.
pub open spec fn indices_below(lists: Seq<Seq<usize>>, n: int) -> bool {
    forall|b: int, t: int| 0 <= b < lists.len() && 0 <= t < lists[b].len() ==> #[trigger] lists[b][t] < n
}

fn absorb_aligned(
    aligned: &Vec<usize>,
    line_box: &Vec<Option<usize>>,
    members: &Vec<Vec<usize>>,
    open: &mut Vec<bool>,
    acc: &mut Vec<usize>,
)
    requires
        old(open).len() == members.len(),
        forall|m: int| 0 <= m < line_box.len() ==> match #[trigger] line_box[m] {
            Some(b) => b < members.len(),
            None => true,
        },
        forall|t: int| 0 <= t < aligned.len() ==> #[trigger] aligned[t] < line_box.len(),
        indices_below(lists_view(members@), line_box.len() as int),
        forall|t: int| 0 <= t < old(acc).len() ==> #[trigger] old(acc)[t] < line_box.len(),
    ensures
        (final(acc)@, final(open)@) == absorb(
            line_box@,
            lists_view(members@),
            old(open)@,
            old(acc)@,
            aligned@,
            aligned.len() as int,
        ),
        final(open).len() == members.len(),
        forall|t: int| 0 <= t < final(acc).len() ==> #[trigger] final(acc)[t] < line_box.len(),
{
    let ghost ms = lists_view(members@);
    let mut k: usize = 0;
    while k < aligned.len()
        invariant
            k <= aligned.len(),
            open.len() == members.len(),
            ms == lists_view(members@),
            forall|m: int| 0 <= m < line_box.len() ==> match #[trigger] line_box[m] {
                Some(b) => b < members.len(),
                None => true,
            },
            forall|t: int| 0 <= t < aligned.len() ==> #[trigger] aligned[t] < line_box.len(),
            indices_below(ms, line_box.len() as int),
            forall|t: int| 0 <= t < acc.len() ==> #[trigger] acc[t] < line_box.len(),
            (acc@, open@) == absorb(line_box@, ms, old(open)@, old(acc)@, aligned@, k as int),
        decreases aligned.len() - k,
    {
        let j = aligned[k];
        let ghost before = acc@;
        acc.push(j);
        match line_box[j] {
            Some(b) => {
                if open[b] {
                    open.set(b, false);
                    let list = &members[b];
                    assert(ms[b as int] == list@);
                    let mut t: usize = 0;
                    while t < list.len()
                        invariant
                            t <= list.len(),
                            list@ == ms[b as int],
                            b < ms.len(),
                            indices_below(ms, line_box.len() as int),
                            acc@ == before.push(j) + list@.take(t as int),
                            forall|u: int| 0 <= u < acc.len() ==> #[trigger] acc[u] < line_box.len(),
                        decreases list.len() - t,
                    {
                        assert(list@[t as int] == ms[b as int][t as int]);
                        acc.push(list[t]);
                        assert(list@.take(t + 1) =~= list@.take(t as int).push(list@[t as int]));
                        t = t + 1;
                    }
                    assert(list@.take(list.len() as int) =~= list@);
                }
            },
            None => {},
        }
        k = k + 1;
    }
}

fn first_occurrences_of(acc: &Vec<usize>, seen: &mut Vec<usize>, generation: usize) -> (r: Vec<usize>)
    requires
        forall|t: int| 0 <= t < acc.len() ==> #[trigger] acc[t] < old(seen).len(),
        forall|m: int| 0 <= m < old(seen).len() ==> #[trigger] old(seen)[m] < generation,
    ensures
        r@ == first_occurrences(acc@),
        final(seen).len() == old(seen).len(),
        forall|m: int| 0 <= m < final(seen).len() ==> #[trigger] final(seen)[m] <= generation,
        forall|t: int| 0 <= t < r.len() ==> #[trigger] r[t] < old(seen).len(),
{
    let mut unique: Vec<usize> = Vec::new();
    let mut t: usize = 0;
    while t < acc.len()
        invariant
            t <= acc.len(),
            seen.len() == old(seen).len(),
            forall|u: int| 0 <= u < acc.len() ==> #[trigger] acc[u] < seen.len(),
            forall|m: int| 0 <= m < seen.len() ==> #[trigger] seen[m] <= generation,
            forall|m: int| 0 <= m < seen.len() ==> (#[trigger] seen[m] == generation <==> unique@.contains(m as usize)),
            forall|u: int| 0 <= u < unique.len() ==> #[trigger] unique[u] < seen.len(),
            unique@ == first_occurrences(acc@.take(t as int)),
        decreases acc.len() - t,
    {
        let m = acc[t];
        assert(acc@.take(t + 1).drop_last() =~= acc@.take(t as int));
        assert(acc@.take(t + 1).last() == m);
        if seen[m] != generation {
            seen.set(m, generation);
            let ghost before = unique@;
            unique.push(m);
            assert forall|x: int| 0 <= x < seen.len() implies (#[trigger] seen[x] == generation <==> unique@.contains(x as usize)) by {
                if x == m as int {
                    assert(unique@[unique.len() - 1] == m);
                } else {
                    if unique@.contains(x as usize) {
                        let w = choose|w: int| 0 <= w < unique.len() && #[trigger] unique@[w] == x as usize;
                        if w < before.len() {
                            assert(before[w] == x as usize);
                        }
                    }
                    if before.contains(x as usize) {
                        let w = choose|w: int| 0 <= w < before.len() && #[trigger] before[w] == x as usize;
                        assert(unique@[w] == x as usize);
                    }
                }
            }
        }
        t = t + 1;
    }
    assert(acc@.take(acc.len() as int) =~= acc@);
    unique
}

/// Merges text lines into text boxes, given for each line `i` the lines
/// aligned with it (`aligned[i]`, in line order) and each line's writing
/// mode: line after line, a new box takes the line, its aligned lines and
/// every line of the boxes those are in; the boxes come out in the order
/// their first line comes up, each with its lines in merge order.
pub fn group_textlines(aligned: &Vec<Vec<usize>>, vertical: &Vec<bool>) -> (r: Vec<PlannedBox>)
    requires
        aligned.len() == vertical.len(),
        indices_below(lists_view(aligned@), aligned.len() as int),
    ensures
        boxes_view(r@) == planned_boxes(lists_view(aligned@), vertical@),
{
    let n = aligned.len();
    let ghost al = lists_view(aligned@);
    let mut line_box: Vec<Option<usize>> = Vec::new();
    let mut seen: Vec<usize> = Vec::new();
    let mut m: usize = 0;
    while m < n
        invariant
            m <= n,
            line_box@ == Seq::new(m as nat, |x: int| None::<usize>),
            seen@ == Seq::new(m as nat, |x: int| 0usize),
        decreases n - m,
    {
        line_box.push(None);
        seen.push(0);
        assert(line_box@ =~= Seq::new((m + 1) as nat, |x: int| None::<usize>));
        assert(seen@ =~= Seq::new((m + 1) as nat, |x: int| 0usize));
        m = m + 1;
    }
    let mut members: Vec<Vec<usize>> = Vec::new();
    let mut open: Vec<bool> = Vec::new();
    assert(lists_view(members@) =~= Seq::<Seq<usize>>::empty());
    assert((line_box@, lists_view(members@), open@) == boxes_after(al, 0));
    let mut i: usize = 0;
    while i < n
        invariant
            i <= n,
            n == aligned.len(),
            al == lists_view(aligned@),
            indices_below(al, n as int),
            line_box.len() == n,
            seen.len() == n,
            open.len() == members.len(),
            members.len() == i,
            forall|x: int| 0 <= x < n ==> #[trigger] seen[x] <= i,
            forall|x: int| 0 <= x < n ==> match #[trigger] line_box[x] {
                Some(b) => b < members.len(),
                None => true,
            },
            indices_below(lists_view(members@), n as int),
            (line_box@, lists_view(members@), open@) == boxes_after(al, i as int),
        decreases n - i,
    {
        let ghost state = (line_box@, lists_view(members@), open@);
        let row = &aligned[i];
        assert(al[i as int] == row@);
        assert forall|t: int| 0 <= t < row.len() implies #[trigger] row[t] < line_box.len() by {
            assert(al[i as int][t] == row@[t]);
        }
        let mut acc: Vec<usize> = Vec::new();
        acc.push(i);
        assert(acc@ =~= seq![i]);
        absorb_aligned(row, &line_box, &members, &mut open, &mut acc);
        let unique = first_occurrences_of(&acc, &mut seen, i + 1);
        let b = members.len();
        let ghost lb0 = line_box@;
        let mut t: usize = 0;
        while t < unique.len()
            invariant
                t <= unique.len(),
                line_box.len() == n,
                lb0.len() == n,
                b == members.len(),
                forall|u: int| 0 <= u < unique.len() ==> #[trigger] unique[u] < n,
                line_box@ == Seq::new(n as nat, |x: int| if unique@.take(t as int).contains(x as usize) { Some(b) } else { lb0[x] }),
            decreases unique.len() - t,
        {
            let x = unique[t];
            let ghost lb_prev = line_box@;
            line_box.set(x, Some(b));
            assert forall|y: int| 0 <= y < n implies #[trigger] line_box@[y] == (if unique@.take(t + 1).contains(y as usize) { Some(b) } else { lb0[y] }) by {
                assert(unique@.take(t + 1) =~= unique@.take(t as int).push(x));
                assert(unique@.take(t + 1)[t as int] == x);
                assert(lb_prev[y] == (if unique@.take(t as int).contains(y as usize) { Some(b) } else { lb0[y] }));
                if unique@.take(t + 1).contains(y as usize) && y != x as int {
                    let w = choose|w: int| 0 <= w < t + 1 && #[trigger] unique@.take(t + 1)[w] == y as usize;
                    assert(unique@.take(t as int)[w] == y as usize);
                }
                if unique@.take(t as int).contains(y as usize) {
                    let w = choose|w: int| 0 <= w < t && #[trigger] unique@.take(t as int)[w] == y as usize;
                    assert(unique@.take(t + 1)[w] == y as usize);
                }
            }
            assert(line_box@ =~= Seq::new(n as nat, |y: int| if unique@.take(t + 1).contains(y as usize) { Some(b) } else { lb0[y] }));
            t = t + 1;
        }
        assert(unique@.take(unique.len() as int) =~= unique@);
        let ghost uview = unique@;
        members.push(unique);
        open.push(true);
        assert(lists_view(members@) =~= state.1.push(uview));
        assert((line_box@, lists_view(members@), open@) == box_step(state, i as int, al[i as int]));
        assert forall|x: int| 0 <= x < n implies match #[trigger] line_box[x] {
            Some(bb) => bb < members.len(),
            None => true,
        } by {
            assert(line_box@[x] == line_box[x]);
        }
        assert(indices_below(lists_view(members@), n as int)) by {
            assert forall|bb: int, u: int| 0 <= bb < lists_view(members@).len() && 0 <= u < lists_view(members@)[bb].len() implies #[trigger] lists_view(members@)[bb][u] < n by {
                if bb < i {
                    assert(lists_view(members@)[bb] == state.1[bb]);
                } else {
                    assert(lists_view(members@)[bb] == uview);
                }
            }
        }
        i = i + 1;
    }
    let ghost fin = (line_box@, lists_view(members@), open@);
    let mut done: Vec<bool> = Vec::new();
    let mut d: usize = 0;
    while d < members.len()
        invariant
            d <= members.len(),
            done@ == Seq::new(d as nat, |x: int| false),
        decreases members.len() - d,
    {
        done.push(false);
        assert(done@ =~= Seq::new((d + 1) as nat, |x: int| false));
        d = d + 1;
    }
    let mut out: Vec<PlannedBox> = Vec::new();
    assert(boxes_view(out@) =~= Seq::<(bool, Seq<usize>)>::empty());
    let mut k: usize = 0;
    while k < n
        invariant
            k <= n,
            n == aligned.len(),
            n == vertical.len(),
            line_box.len() == n,
            open.len() == members.len(),
            done.len() == members.len(),
            fin == (line_box@, lists_view(members@), open@),
            forall|x: int| 0 <= x < n ==> match #[trigger] line_box[x] {
                Some(b) => b < members.len(),
                None => true,
            },
            indices_below(lists_view(members@), n as int),
            (boxes_view(out@), done@) == emitted(fin, vertical@, k as int),
        decreases n - k,
    {
        assert(line_box@[k as int] == line_box[k as int]);
        match line_box[k] {
            None => {},
            Some(b) => {
                if !done[b] {
                    done.set(b, true);
                    let list = &members[b];
                    assert(lists_view(members@)[b as int] == list@);
                    if open[b] && list.len() > 0 {
                        assert(lists_view(members@)[b as int][0] == list@[0]);
                        let vert = vertical[list[0]];
                        let mut lines: Vec<usize> = Vec::new();
                        let mut t: usize = 0;
                        while t < list.len()
                            invariant
                                t <= list.len(),
                                lines@ == list@.take(t as int),
                            decreases list.len() - t,
                        {
                            lines.push(list[t]);
                            assert(list@.take(t + 1) =~= list@.take(t as int).push(list@[t as int]));
                            t = t + 1;
                        }
                        assert(list@.take(list.len() as int) =~= list@);
                        let ghost prev = boxes_view(out@);
                        out.push(PlannedBox { vertical: vert, lines });
                        assert(boxes_view(out@) =~= prev.push((vert, list@)));
                    }
                }
            },
        }
        k = k + 1;
    }
    out
}

} // verus!
