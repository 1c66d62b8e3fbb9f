//! Table-extraction types and the integer and text helpers of table
//! extraction: compact ids, sweep buckets, ligature expansion and the
//! text-map layout of extracted lines.
use vstd::prelude::*;
use vstd::utf8::encode_utf8;
use crate::bidi::text::chars_of_str;
use crate::bidi::spans::spans_view;
use crate::bidi::unicode::{char_is_whitespace, string_push, unicode_white_space};
use crate::bidi::lines::{concat_texts, element_scalars, reconstruct_spans_spec};
use crate::arena::all_white_space;
use crate::bidi::spans::string_from_chars;
use crate::bidi::scripts::{has_compact_mixed, has_rtl_script};
use crate::bidi::text::{legacy_output_spec, reconstruct_text_for_output, reconstruct_text_spec, reorder_text_for_output};
use crate::bidi::words::{
    WordBidiClass, reorder_words_spec, word_class_of,
    contains_rtl_text, first_alnum_is_ltr, has_compact_mixed_token, is_ltr_prefixed_compact_mixed,
};

verus! {

/// Orientation of an edge.
#[derive(Clone, Copy, Debug, PartialEq, Eq, Hash, PartialOrd, Ord, Structural)]
pub enum Orientation {
    Horizontal,
    Vertical,
}

/// Direction of lines or characters in extracted text.
#[derive(Clone, Copy, Debug, PartialEq, Eq, Hash, Structural)]
pub enum TextDir {
    Ttb,
    Btt,
    Ltr,
    Rtl,
}

/// The direction named by `s`, if any.
pub open spec fn text_dir_named(s: Seq<char>) -> Option<TextDir> {
    if s == seq!['t', 't', 'b'] {
        Some(TextDir::Ttb)
    } else if s == seq!['b', 't', 't'] {
        Some(TextDir::Btt)
    } else if s == seq!['l', 't', 'r'] {
        Some(TextDir::Ltr)
    } else if s == seq!['r', 't', 'l'] {
        Some(TextDir::Rtl)
    } else {
        None
    }
}

fn is_word(s: &Vec<char>, a: char, b: char, c: char) -> (r: bool)
    ensures
        r == (s@ == seq![a, b, c]),
{
    if s.len() != 3 {
        return false;
    }
    let r = s[0] == a && s[1] == b && s[2] == c;
    if r {
        assert(s@ =~= seq![a, b, c]);
    }
    r
}

impl TextDir {
    /// Parses `"ttb"`, `"btt"`, `"ltr"` or `"rtl"`.
    pub fn from_str(s: &str) -> (r: Option<Self>)
        ensures
            r == text_dir_named(s@),
    {
        let chars = chars_of_str(s);
        if is_word(&chars, 't', 't', 'b') {
            Some(TextDir::Ttb)
        } else if is_word(&chars, 'b', 't', 't') {
            Some(TextDir::Btt)
        } else if is_word(&chars, 'l', 't', 'r') {
            Some(TextDir::Ltr)
        } else if is_word(&chars, 'r', 't', 'l') {
            Some(TextDir::Rtl)
        } else {
            None
        }
    }
}

/// A piece of extracted cell text tied to the word it came from.
#[derive(Clone, Debug, PartialEq, Eq)]
pub struct TextSpan {
    pub text: String,
    pub line_index: usize,
    pub word_index: usize,
    pub start: usize,
    pub end: usize,
}

/// Whether a line's spans could be established at all.
#[derive(Clone, Copy, Debug, PartialEq, Eq, Structural)]
pub enum SpanFidelity {
    /// Every span is anchored to the word it came from.
    Exact,
    /// The line was reordered by a path that carries no word identity, so no
    /// span is claimed for it rather than guessing one.
    Unavailable,
}

/// The direction in which the characters of a word run: bottom to top for
/// rotated characters when vertical text does not run top to bottom, right
/// to left for upright characters when horizontal text does not run left to
/// right, and otherwise the configured character direction (for rotated
/// characters, the rotated one when it is set, else the line direction).
pub fn get_char_dir(
    upright: bool,
    vertical_ttb: bool,
    horizontal_ltr: bool,
    char_dir: TextDir,
    char_dir_rotated: Option<TextDir>,
    line_dir: TextDir,
) -> (r: TextDir)
    ensures
        !upright && !vertical_ttb ==> r == TextDir::Btt,
        upright && !horizontal_ltr ==> r == TextDir::Rtl,
        upright && horizontal_ltr ==> r == char_dir,
        !upright && vertical_ttb ==> r == match char_dir_rotated {
            Some(d) => d,
            None => line_dir,
        },
{
    if !upright && !vertical_ttb {
        return TextDir::Btt;
    }
    if upright && !horizontal_ltr {
        return TextDir::Rtl;
    }
    if upright {
        char_dir
    } else {
        match char_dir_rotated {
            Some(d) => d,
            None => line_dir,
        }
    }
}

/// The default bidi policy for extracted table text: with the default
/// layout directions (left-to-right characters in top-to-bottom lines) the
/// text is reconstructed in logical order when `bidi` is on and a token mixes
/// scripts, and otherwise reordered with the legacy policy; other layouts
/// keep the text.
pub fn maybe_reorder_bidi_default(
    text: String,
    horizontal_ltr: bool,
    line_dir: TextDir,
    char_dir: TextDir,
    bidi: bool,
) -> (r: String)
    ensures
        r@ == (if horizontal_ltr && line_dir == TextDir::Ttb && char_dir == TextDir::Ltr {
            if bidi && has_compact_mixed(text@) {
                reconstruct_text_spec(text@)
            } else {
                legacy_output_spec(text@)
            }
        } else {
            text@
        }),
{
    if horizontal_ltr && line_dir == TextDir::Ttb && char_dir == TextDir::Ltr {
        return if bidi && has_compact_mixed_token(text.as_str()) {
            reconstruct_text_for_output(text.as_str())
        } else {
            reorder_text_for_output(text.as_str())
        };
    }
    text
}

/// Whether a geometric line of words is reconstructed as one mixed line: it
/// has words, the last one mixes scripts in a token and starts with
/// left-to-right content, and no earlier word has right-to-left script.
pub fn should_reconstruct_geometric_line(words: &Vec<String>) -> (r: bool)
    ensures
        r == (words@.len() > 0 && has_compact_mixed(words@.last()@) && first_alnum_is_ltr(words@.last()@, 0)
            && forall|i: int| 0 <= i < words@.len() - 1 ==> !has_rtl_script(#[trigger] words@[i]@)),
{
    if words.len() == 0 {
        return false;
    }
    let last = words.len() - 1;
    if !is_ltr_prefixed_compact_mixed(words[last].as_str()) {
        return false;
    }
    let mut i: usize = 0;
    while i < last
        invariant
            i <= last,
            last == words@.len() - 1,
            forall|j: int| 0 <= j < i ==> !has_rtl_script(#[trigger] words@[j]@),
        decreases last - i,
    {
        if contains_rtl_text(words[i].as_str()) {
            return false;
        }
        i += 1;
    }
    true
}

/// Index of a vertical edge.
#[derive(Copy, Clone, Debug, Eq, PartialEq, Hash, Ord, PartialOrd, Structural)]
pub struct VEdgeId(pub u32);

/// Index of a horizontal edge.
#[derive(Copy, Clone, Debug, Eq, PartialEq, Hash, Ord, PartialOrd, Structural)]
pub struct HEdgeId(pub u32);

/// Index of a character object.
#[derive(Copy, Clone, Debug, Eq, PartialEq, Hash, Ord, PartialOrd, Structural)]
pub struct CharId(pub u32);

impl VEdgeId {
    /// The id of vertical edge `index`.
    pub fn from_index(index: usize) -> (r: Self)
        requires
            index <= u32::MAX,
        ensures
            r.0 == index,
    {
        VEdgeId(index as u32)
    }

    /// The edge index of this id.
    pub fn index(self) -> (r: usize)
        ensures
            r == self.0,
    {
        self.0 as usize
    }
}

impl HEdgeId {
    /// The id of horizontal edge `index`.
    pub fn from_index(index: usize) -> (r: Self)
        requires
            index <= u32::MAX,
        ensures
            r.0 == index,
    {
        HEdgeId(index as u32)
    }

    /// The edge index of this id.
    pub fn index(self) -> (r: usize)
        ensures
            r == self.0,
    {
        self.0 as usize
    }
}

impl CharId {
    /// The id of character `index`.
    pub fn from_index(index: usize) -> (r: Self)
        requires
            index <= u32::MAX,
        ensures
            r.0 == index,
    {
        CharId(index as u32)
    }

    /// The character index of this id.
    pub fn index(self) -> (r: usize)
        ensures
            r == self.0,
    {
        self.0 as usize
    }
}

/// Index of edges meeting at an intersection point: the vertical and the
/// horizontal edge of each meeting, pair by pair.
#[derive(Clone, Debug, Default)]
pub struct IntersectionIdx {
    pub v: Vec<VEdgeId>,
    pub h: Vec<HEdgeId>,
}

/// The (vertical, horizontal) id pairs of the first `v.len()` positions.
pub open spec fn edge_pairs(v: Seq<VEdgeId>, h: Seq<HEdgeId>) -> Seq<(u32, u32)> {
    Seq::new(v.len(), |i: int| (v[i].0, h[i].0))
}

/// Lexicographic order on id pairs.
pub open spec fn pair_le(a: (u32, u32), b: (u32, u32)) -> bool {
    a.0 < b.0 || (a.0 == b.0 && a.1 <= b.1)
}

/// The pairs are in increasing order.
pub open spec fn pairs_sorted(p: Seq<(u32, u32)>) -> bool {
    forall|i: int, j: int| 0 <= i <= j < p.len() ==> pair_le(p[i], p[j])
}

impl IntersectionIdx {
    /// Puts the pairs in increasing (vertical, horizontal) order, keeping
    /// each pair together; a stable insertion sort.
    pub fn sort_pairs(&mut self)
        requires
            old(self).v@.len() <= old(self).h@.len(),
        ensures
            final(self).v@.len() == old(self).v@.len(),
            final(self).h@.len() == old(self).h@.len(),
            edge_pairs(final(self).v@, final(self).h@).to_multiset() == edge_pairs(old(self).v@, old(self).h@).to_multiset(),
            pairs_sorted(edge_pairs(final(self).v@, final(self).h@)),
            forall|k: int| old(self).v@.len() <= k < old(self).h@.len() ==> #[trigger] final(self).h@[k] == old(self).h@[k],
    {
        let n = self.v.len();
        if n == 0 {
            return;
        }
        let ghost orig = edge_pairs(self.v@, self.h@);
        let mut index: usize = 1;
        while index < n
            invariant
                1 <= index <= n,
                n == self.v@.len(),
                self.v@.len() <= self.h@.len(),
                self.h@.len() == old(self).h@.len(),
                forall|k: int| n <= k < self.h@.len() ==> #[trigger] self.h@[k] == old(self).h@[k],
                edge_pairs(self.v@, self.h@).to_multiset() == orig.to_multiset(),
                pairs_sorted(edge_pairs(self.v@, self.h@).take(index as int)),
            decreases n - index,
        {
            let ghost s = edge_pairs(self.v@, self.h@);
            let v_id = self.v[index];
            let h_id = self.h[index];
            let ghost x = (v_id.0, h_id.0);
            assert(s[index as int] == x);
            let mut insert_at = index;
            while insert_at > 0 && (self.v[insert_at - 1].0 > v_id.0 || (self.v[insert_at - 1].0 == v_id.0
                && self.h[insert_at - 1].0 > h_id.0))
                invariant
                    0 <= insert_at <= index < n,
                    n == self.v@.len(),
                    self.v@.len() <= self.h@.len(),
                    self.h@.len() == old(self).h@.len(),
                    forall|k: int| n <= k < self.h@.len() ==> #[trigger] self.h@[k] == old(self).h@[k],
                    forall|k: int| 0 <= k < insert_at ==> #[trigger] edge_pairs(self.v@, self.h@)[k] == s[k],
                    forall|k: int|
                        insert_at < k <= index ==> #[trigger] edge_pairs(self.v@, self.h@)[k] == s[k - 1],
                    forall|k: int| index < k < n ==> #[trigger] edge_pairs(self.v@, self.h@)[k] == s[k],
                    forall|k: int| insert_at <= k < index ==> !pair_le(#[trigger] s[k], x),
                    s.len() == n,
                    s[index as int] == x,
                    x == (v_id.0, h_id.0),
                decreases insert_at,
            {
                let ghost c0 = edge_pairs(self.v@, self.h@);
                let pv = self.v[insert_at - 1];
                let ph = self.h[insert_at - 1];
                assert(c0[insert_at - 1] == (pv.0, ph.0));
                self.v.set(insert_at, pv);
                self.h.set(insert_at, ph);
                proof {
                    assert forall|k: int| 0 <= k < n implies #[trigger] edge_pairs(self.v@, self.h@)[k] == (if k
                        == insert_at {
                        c0[insert_at - 1]
                    } else {
                        c0[k]
                    }) by {}
                }
                insert_at -= 1;
            }
            let ghost c1 = edge_pairs(self.v@, self.h@);
            proof {
                if insert_at > 0 {
                    assert(c1[insert_at - 1] == (self.v@[insert_at - 1].0, self.h@[insert_at - 1].0));
                    assert(pair_le(s[insert_at - 1], x));
                }
            }
            self.v.set(insert_at, v_id);
            self.h.set(insert_at, h_id);
            proof {
                broadcast use vstd::seq_lib::to_multiset_remove, vstd::seq_lib::to_multiset_insert;

                let c = edge_pairs(self.v@, self.h@);
                assert forall|k: int| 0 <= k < n implies #[trigger] c[k] == (if k == insert_at {
                    x
                } else {
                    c1[k]
                }) by {}
                assert(c =~= s.remove(index as int).insert(insert_at as int, x));
                assert(s.remove(index as int).to_multiset() == s.to_multiset().remove(x));
                assert(s.remove(index as int).insert(insert_at as int, x).to_multiset() == s.remove(
                    index as int,
                ).to_multiset().insert(x));
                assert(s.to_multiset().remove(x).insert(x) =~= s.to_multiset()) by {
                    broadcast use vstd::multiset::group_multiset_axioms;
                    assert(s.to_multiset().count(x) > 0) by {
                        broadcast use vstd::seq_lib::to_multiset_contains;
                        assert(s.contains(x));
                    }
                }
                assert forall|i: int, j: int| 0 <= i <= j < index + 1 implies pair_le(c[i], c[j]) by {
                    assert(pairs_sorted(s.take(index as int)));
                    if i < insert_at {
                        assert(c[i] == s[i]);
                    } else if i == insert_at {
                        assert(c[i] == x);
                    } else {
                        assert(c[i] == s[i - 1]);
                    }
                    if j < insert_at {
                        assert(c[j] == s[j]);
                    } else if j == insert_at {
                        assert(c[j] == x);
                    } else {
                        assert(c[j] == s[j - 1]);
                        assert(!pair_le(s[j - 1], x));
                    }
                    if insert_at > 0 {
                        assert(s.take(index as int)[insert_at - 1] == s[insert_at - 1]);
                    }
                    if i < insert_at && j < insert_at {
                        assert(s.take(index as int)[i] == s[i]);
                        assert(s.take(index as int)[j] == s[j]);
                    } else if i < insert_at {
                        assert(s.take(index as int)[i] == s[i]);
                        assert(pair_le(s[i], s[insert_at - 1]));
                        if j > insert_at {
                            assert(s.take(index as int)[j - 1] == s[j - 1]);
                        }
                    } else if i > insert_at {
                        assert(s.take(index as int)[i - 1] == s[i - 1]);
                        assert(s.take(index as int)[j - 1] == s[j - 1]);
                    }
                }
                assert(pairs_sorted(c.take(index + 1)));
            }
            index += 1;
        }
        assert(edge_pairs(self.v@, self.h@).take(n as int) =~= edge_pairs(self.v@, self.h@));
    }
}

/// A table cell id: the cell's index plus one, so that zero never occurs.
#[derive(Copy, Clone, Debug, Eq, PartialEq, Hash, Structural)]
pub struct CellId {
    value: u32,
}

impl CellId {
    /// The cell index this id stands for.
    pub closed spec fn spec_index(self) -> int {
        self.value - 1
    }

    pub closed spec fn wf(self) -> bool {
        self.value >= 1
    }

    /// The id of cell `index`; a table holds fewer than `u32::MAX` cells.
    pub fn from_index(index: usize) -> (r: Self)
        requires
            index < u32::MAX,
        ensures
            r.wf(),
            r.spec_index() == index,
            r == cell_id_of(index as int),
    {
        CellId { value: (index as u32) + 1 }
    }

    /// The cell index of this id.
    pub fn index(self) -> (r: usize)
        requires
            self.wf(),
        ensures
            r == self.spec_index(),
    {
        (self.value - 1) as usize
    }
}

/// Converting an index to a cell id and back gives the index.
pub proof fn lemma_cell_id_roundtrip(index: int, id: CellId)
    requires
        id.wf(),
        id.spec_index() == index,
    ensures
        0 <= index < u32::MAX,
{
}

/// A character matched to the cell that contains it.
#[derive(Copy, Clone, Debug)]
pub struct CellMatch {
    pub cell: CellId,
    pub ch: CharId,
}

/// Where a cell of a table goes, in top-then-left order: whether it starts a
/// new row (its top differs from the previous cell's) and its column among
/// the table's distinct left edges.
#[derive(Copy, Clone, Debug)]
pub struct CellPlacement {
    pub starts_row: bool,
    pub column: usize,
}

/// A table laid out as rows of slots: row `r` holds the slots from
/// `row_offsets[r]` to `row_offsets[r + 1]`, a slot names the cell stored
/// there, and cell `j` is the `cells[j]`-th placed cell.
#[derive(Clone, Debug)]
pub struct TableGrid {
    pub row_offsets: Vec<usize>,
    pub slots: Vec<Option<CellId>>,
    pub cells: Vec<usize>,
}

/// The id of cell `index`.
pub closed spec fn cell_id_of(index: int) -> CellId {
    CellId { value: (index + 1) as u32 }
}

/// The grid after placing the first `n` cells: a cell that starts a row
/// opens a row of empty slots (closing the previous row); the cell goes to
/// its column of the current row, replacing the cell stored there if there
/// is one, else becoming a new cell.
pub open spec fn grid_upto(placements: Seq<CellPlacement>, columns: nat, n: int) -> (Seq<usize>, Seq<Option<CellId>>, Seq<usize>)
    decreases n,
{
    if n <= 0 {
        (seq![0usize], Seq::empty(), Seq::empty())
    } else {
        let (ro, sl, ce) = grid_upto(placements, columns, n - 1);
        let p = placements[n - 1];
        let ro1 = if p.starts_row && n > 1 { ro.push(sl.len() as usize) } else { ro };
        let sl1 = if p.starts_row { sl + Seq::new(columns, |i: int| None::<CellId>) } else { sl };
        let idx = ro1.last() + p.column;
        match sl1[idx] {
            Some(id) => (ro1, sl1, ce.update(id.spec_index(), (n - 1) as usize)),
            None => (ro1, sl1.update(idx, Some(cell_id_of(ce.len() as int))), ce.push((n - 1) as usize)),
        }
    }
}

/// The grid of all placed cells, with the last row closed.
pub open spec fn grid_spec(placements: Seq<CellPlacement>, columns: nat) -> (Seq<usize>, Seq<Option<CellId>>, Seq<usize>) {
    let (ro, sl, ce) = grid_upto(placements, columns, placements.len() as int);
    if placements.len() > 0 {
        (ro.push(sl.len() as usize), sl, ce)
    } else {
        (ro, sl, ce)
    }
}

/// Lays placed cells out in rows of `columns` slots.
pub fn build_grid(placements: &Vec<CellPlacement>, columns: usize) -> (r: TableGrid)
    requires
        placements@.len() > 0 ==> placements@[0].starts_row,
        forall|k: int| 0 <= k < placements@.len() ==> #[trigger] placements@[k].column < columns,
        placements@.len() * columns <= usize::MAX,
        placements@.len() < u32::MAX,
    ensures
        (r.row_offsets@, r.slots@, r.cells@) == grid_spec(placements@, columns as nat),
        forall|i: int| 0 <= i < r.slots@.len() ==> (#[trigger] r.slots@[i] matches Some(id) ==> id.wf() && 0 <= id.spec_index() < r.cells@.len()),
        forall|j: int| 0 <= j < r.cells@.len() ==> #[trigger] r.cells@[j] < placements@.len(),
{
    let mut row_offsets: Vec<usize> = Vec::new();
    row_offsets.push(0);
    let mut slots: Vec<Option<CellId>> = Vec::new();
    let mut cells: Vec<usize> = Vec::new();
    let mut k: usize = 0;
    while k < placements.len()
        invariant
            k <= placements@.len(),
            placements@.len() > 0 ==> placements@[0].starts_row,
            forall|m: int| 0 <= m < placements@.len() ==> #[trigger] placements@[m].column < columns,
            placements@.len() * columns <= usize::MAX,
            placements@.len() < u32::MAX,
            (row_offsets@, slots@, cells@) == grid_upto(placements@, columns as nat, k as int),
            row_offsets@.len() >= 1,
            k > 0 ==> row_offsets@.last() + columns <= slots@.len(),
            slots@.len() <= k * columns,
            cells@.len() <= k,
            forall|i: int| 0 <= i < slots@.len() ==> (#[trigger] slots@[i] matches Some(id) ==> id.wf() && 0 <= id.spec_index() < cells@.len()),
            forall|j: int| 0 <= j < cells@.len() ==> #[trigger] cells@[j] < k,
        decreases placements@.len() - k,
    {
        let p = placements[k];
        let ghost before = (row_offsets@, slots@, cells@);
        if p.starts_row {
            if k > 0 {
                row_offsets.push(slots.len());
            }
            proof {
                assert(slots@.len() + columns <= (k + 1) * columns) by (nonlinear_arith)
                    requires
                        slots@.len() <= k * columns,
                ;
                assert((k + 1) * columns <= placements@.len() * columns) by (nonlinear_arith)
                    requires
                        k + 1 <= placements@.len(),
                ;
            }
            let mut c: usize = 0;
            let ghost base = slots@;
            while c < columns
                invariant
                    c <= columns,
                    base.len() + columns <= usize::MAX,
                    slots@ == base + Seq::new(c as nat, |i: int| None::<CellId>),
                decreases columns - c,
            {
                slots.push(None);
                c += 1;
                assert(slots@ =~= base + Seq::new(c as nat, |i: int| None::<CellId>));
            }
        }
        assert(row_offsets@.last() + columns <= slots@.len());
        assert(p.column < columns) by {
            assert(placements@[k as int].column < columns);
        }
        assert(slots@.len() <= (k + 1) * columns) by (nonlinear_arith)
            requires
                slots@.len() <= k * columns || slots@.len() <= (k + 1) * columns,
        ;
        let row_start = row_offsets[row_offsets.len() - 1];
        assert(row_start == row_offsets@.last());
        let n_slots = slots.len();
        assert(row_start + p.column < n_slots);
        let idx = row_start + p.column;
        match slots[idx] {
            Some(cell_id) => {
                let j = cell_id.index();
                cells.set(j, k);
            },
            None => {
                let cell_id = CellId::from_index(cells.len());
                cells.push(k);
                slots.set(idx, Some(cell_id));
            },
        }
        proof {
            let (ro, sl, ce) = grid_upto(placements@, columns as nat, k + 1);
            assert(before == grid_upto(placements@, columns as nat, k as int));
            assert(row_offsets@ =~= ro);
            assert(slots@ =~= sl);
            assert(cells@ =~= ce);
        }
        k += 1;
    }
    if k > 0 {
        row_offsets.push(slots.len());
    }
    TableGrid { row_offsets, slots, cells }
}

/// The word ranges of a line's first `n` characters, and the start of the
/// word still open after them.  A blank character ends the open word; a
/// punctuation character ends it and is a word of its own; any other
/// character opens a word when none is open, and otherwise ends the open
/// word and opens a new one when `breaks[i]` says it begins a new word.
pub open spec fn words_upto(blank: Seq<bool>, punct: Seq<bool>, breaks: Seq<bool>, n: int) -> (Seq<(usize, usize)>, Option<usize>)
    decreases n,
{
    if n <= 0 {
        (Seq::empty(), None)
    } else {
        let (out, open) = words_upto(blank, punct, breaks, n - 1);
        let i = (n - 1) as usize;
        if blank[n - 1] {
            (
                match open {
                    Some(start) => out.push((start, i)),
                    None => out,
                },
                None,
            )
        } else if punct[n - 1] {
            (
                match open {
                    Some(start) => out.push((start, i)).push((i, (i + 1) as usize)),
                    None => out.push((i, (i + 1) as usize)),
                },
                None,
            )
        } else {
            match open {
                None => (out, Some(i)),
                Some(start) => if breaks[n - 1] {
                    (out.push((start, i)), Some(i))
                } else {
                    (out, Some(start))
                },
            }
        }
    }
}

/// The word ranges of a whole line: the open word is closed at its end.
pub open spec fn words_spec(blank: Seq<bool>, punct: Seq<bool>, breaks: Seq<bool>) -> Seq<(usize, usize)> {
    let (out, open) = words_upto(blank, punct, breaks, blank.len() as int);
    match open {
        Some(start) => out.push((start, blank.len() as usize)),
        None => out,
    }
}

/// Whether the segmentation asks if character `i` begins a new word: it is
/// neither blank nor punctuation and a word is open before it.
pub open spec fn asks_break(blank: Seq<bool>, punct: Seq<bool>, breaks: Seq<bool>, i: int) -> bool {
    !blank[i] && !punct[i] && words_upto(blank, punct, breaks, i).1 is Some
}

/// Splits a line of characters into word ranges `[start, end)`, in order.
/// `blank[i]` says that character `i` is white space that does not count,
/// `punct[i]` that it is a punctuation character that stands alone, and
/// `begins_new_word(i - 1, i)` whether character `i` is far enough from
/// the previous one to begin a new word.
pub fn word_ranges<F: Fn(usize, usize) -> bool>(blank: &Vec<bool>, punct: &Vec<bool>, begins_new_word: &F) -> (r: Vec<
    (usize, usize),
>)
    requires
        punct@.len() == blank@.len(),
        blank@.len() < usize::MAX,
        forall|a: usize, b: usize| call_requires(*begins_new_word, (a, b)),
    ensures
        exists|breaks: Seq<bool>|
            {
                &&& breaks.len() == blank@.len()
                &&& forall|i: int|
                    0 <= i < blank@.len() && #[trigger] asks_break(blank@, punct@, breaks, i) ==> call_ensures(
                        *begins_new_word,
                        ((i - 1) as usize, i as usize),
                        breaks[i],
                    )
                &&& r@ == words_spec(blank@, punct@, breaks)
            },
{
    let n = blank.len();
    let mut words: Vec<(usize, usize)> = Vec::new();
    let mut word_start: Option<usize> = None;
    let ghost mut breaks: Seq<bool> = Seq::empty();
    let mut i: usize = 0;
    while i < n
        invariant
            i <= n == blank@.len() == punct@.len(),
            n < usize::MAX,
            forall|a: usize, b: usize| call_requires(*begins_new_word, (a, b)),
            breaks.len() == i,
            forall|j: int| 0 <= j < i && #[trigger] asks_break(blank@, punct@, breaks, j) ==> call_ensures(
                *begins_new_word,
                ((j - 1) as usize, j as usize),
                breaks[j],
            ),
            (words@, word_start) == words_upto(blank@, punct@, breaks, i as int),
            word_start matches Some(s) ==> s < i,
        decreases n - i,
    {
        let ghost prev = breaks;
        let mut asked = false;
        if blank[i] {
            if let Some(start) = word_start {
                words.push((start, i));
            }
            word_start = None;
        } else if punct[i] {
            if let Some(start) = word_start {
                words.push((start, i));
            }
            words.push((i, i + 1));
            word_start = None;
        } else {
            match word_start {
                None => {
                    word_start = Some(i);
                },
                Some(start) => {
                    let b = begins_new_word(i - 1, i);
                    asked = b;
                    if b {
                        words.push((start, i));
                        word_start = Some(i);
                    }
                },
            }
        }
        proof {
            breaks = prev.push(asked);
            assert forall|j: int| 0 <= j <= i implies words_upto(blank@, punct@, breaks, j) == words_upto(blank@, punct@, prev, j) by {
                lemma_words_upto_prefix(blank@, punct@, prev, breaks, j);
            }
            assert forall|j: int| 0 <= j < i + 1 && #[trigger] asks_break(blank@, punct@, breaks, j) implies call_ensures(
                *begins_new_word,
                ((j - 1) as usize, j as usize),
                breaks[j],
            ) by {
                if j < i {
                    assert(breaks[j] == prev[j]);
                    assert(asks_break(blank@, punct@, prev, j));
                }
            }
            let (o, w) = words_upto(blank@, punct@, breaks, i + 1);
            assert(words@ =~= o);
        }
        i += 1;
    }
    if let Some(start) = word_start {
        words.push((start, n));
    }
    proof {
        assert(words@ =~= words_spec(blank@, punct@, breaks));
        assert(forall|j: int|
            0 <= j < blank@.len() && #[trigger] asks_break(blank@, punct@, breaks, j) ==> call_ensures(
                *begins_new_word,
                ((j - 1) as usize, j as usize),
                breaks[j],
            ));
    }
    words
}

/// The segmentation of a prefix depends only on the breaks of that prefix.
proof fn lemma_words_upto_prefix(blank: Seq<bool>, punct: Seq<bool>, a: Seq<bool>, b: Seq<bool>, n: int)
    requires
        forall|k: int| 0 <= k < n ==> a[k] == b[k],
    ensures
        words_upto(blank, punct, a, n) == words_upto(blank, punct, b, n),
    decreases n,
{
    if n > 0 {
        lemma_words_upto_prefix(blank, punct, a, b, n - 1);
    }
}

/// Vertical edges are swept in buckets of this many consecutive edges.
pub const EDGES_PER_BUCKET: usize = 32;

/// The number of buckets that hold `vertical_edges` edges.
pub fn bucket_count(vertical_edges: usize) -> (r: usize)
    ensures
        r == (vertical_edges + 31) / 32,
{
    vertical_edges / EDGES_PER_BUCKET + if vertical_edges % EDGES_PER_BUCKET == 0 {
        0
    } else {
        1
    }
}

/// The bucket of edge `edge_index`.
pub fn edge_bucket(edge_index: usize) -> (r: usize)
    ensures
        r == edge_index / 32,
{
    edge_index / EDGES_PER_BUCKET
}

/// Every edge of a bucketed list falls in one of its buckets, and the
/// buckets of consecutive edges are consecutive.
pub proof fn lemma_edge_bucket_in_range(edge_index: int, edges: int)
    requires
        0 <= edge_index < edges,
    ensures
        edge_index / 32 < (edges + 31) / 32,
        edge_index / 32 <= (edge_index + 1) / 32 <= edge_index / 32 + 1,
{
}

/// The expansion of a ligature character, if `s` is one.
pub open spec fn ligature_expansion(s: Seq<char>) -> Option<Seq<char>> {
    if s == seq!['\u{fb00}'] {
        Some(seq!['f', 'f'])
    } else if s == seq!['\u{fb03}'] {
        Some(seq!['f', 'f', 'i'])
    } else if s == seq!['\u{fb04}'] {
        Some(seq!['f', 'f', 'l'])
    } else if s == seq!['\u{fb01}'] {
        Some(seq!['f', 'i'])
    } else if s == seq!['\u{fb02}'] {
        Some(seq!['f', 'l'])
    } else if s == seq!['\u{fb06}'] || s == seq!['\u{fb05}'] {
        Some(seq!['s', 't'])
    } else {
        None
    }
}

fn is_single(s: &Vec<char>, c: char) -> (r: bool)
    ensures
        r == (s@ == seq![c]),
{
    let r = s.len() == 1 && s[0] == c;
    if r {
        assert(s@ =~= seq![c]);
    }
    r
}

/// Expands ligature characters to their component characters when `expand`
/// is set; any other text is returned as it is, without a copy.
pub fn expand_ligature<'a>(text: &'a str, expand: bool) -> (r: &'a str)
    ensures
        r@ == match (expand, ligature_expansion(text@)) {
            (true, Some(e)) => e,
            _ => text@,
        },
{
    if !expand {
        return text;
    }
    let chars = chars_of_str(text);
    proof {
        reveal_strlit("ff");
        reveal_strlit("ffi");
        reveal_strlit("ffl");
        reveal_strlit("fi");
        reveal_strlit("fl");
        reveal_strlit("st");
    }
    if is_single(&chars, '\u{fb00}') {
        "ff"
    } else if is_single(&chars, '\u{fb03}') {
        "ffi"
    } else if is_single(&chars, '\u{fb04}') {
        "ffl"
    } else if is_single(&chars, '\u{fb01}') {
        "fi"
    } else if is_single(&chars, '\u{fb02}') {
        "fl"
    } else if is_single(&chars, '\u{fb06}') || is_single(&chars, '\u{fb05}') {
        "st"
    } else {
        text
    }
}

/// The UTF-8 length of a line, as `str::len` counts it.
pub open spec fn byte_len(s: Seq<char>) -> int {
    (encode_utf8(s).len() as usize) as int
}

pub open spec fn max_byte_len(lines: Seq<Seq<char>>) -> int
    decreases lines.len(),
{
    if lines.len() == 0 {
        0
    } else {
        let m = max_byte_len(lines.drop_last());
        let n = byte_len(lines.last());
        if n > m {
            n
        } else {
            m
        }
    }
}

pub open spec fn spaces(n: int) -> Seq<char> {
    Seq::new(if n > 0 { n as nat } else { 0 }, |i: int| ' ')
}

/// A line padded with spaces up to `width` bytes, on the left or the right.
pub open spec fn pad_line(line: Seq<char>, width: int, left: bool) -> Seq<char> {
    if left {
        spaces(width - byte_len(line)) + line
    } else {
        line + spaces(width - byte_len(line))
    }
}

/// Row `i` of the text map: the `i`-th character of every line, or a space.
pub open spec fn grid_row(lines: Seq<Seq<char>>, i: int) -> Seq<char> {
    Seq::new(lines.len(), |k: int| if i < lines[k].len() { lines[k][i] } else { ' ' })
}

/// Rows `i` to `m - 1` of the text map, separated by line feeds.
pub open spec fn grid_rows(lines: Seq<Seq<char>>, i: int, m: int) -> Seq<char>
    decreases m - i,
{
    if i >= m {
        Seq::empty()
    } else if i + 1 < m {
        grid_row(lines, i) + seq!['\n'] + grid_rows(lines, i + 1, m)
    } else {
        grid_row(lines, i)
    }
}

/// The lines joined by line feeds.
pub open spec fn join_lines(lines: Seq<Seq<char>>) -> Seq<char>
    decreases lines.len(),
{
    if lines.len() == 0 {
        Seq::empty()
    } else if lines.len() == 1 {
        lines[0]
    } else {
        join_lines(lines.drop_last()) + seq!['\n'] + lines.last()
    }
}

/// The text of extracted lines laid out by line and character direction:
/// lines in reverse for bottom-to-top and right-to-left line order, each
/// line reversed for right-to-left characters, and, when lines run across,
/// the padded lines read column by column.
pub open spec fn textmap_spec(lines: Seq<Seq<char>>, line_dir: TextDir, char_dir: TextDir) -> Seq<
    char,
> {
    let ordered = if line_dir == TextDir::Btt || line_dir == TextDir::Rtl {
        lines.reverse()
    } else {
        lines
    };
    let turned = if char_dir == TextDir::Rtl {
        ordered.map_values(|l: Seq<char>| l.reverse())
    } else {
        ordered
    };
    if line_dir == TextDir::Rtl || line_dir == TextDir::Ltr {
        let m = max_byte_len(turned);
        grid_rows(
            turned.map_values(|l: Seq<char>| pad_line(l, m, char_dir == TextDir::Btt)),
            0,
            m,
        )
    } else {
        join_lines(turned)
    }
}

fn reversed_chars(line: &Vec<char>) -> (r: Vec<char>)
    ensures
        r@ == line@.reverse(),
{
    let mut out: Vec<char> = Vec::new();
    let mut k = line.len();
    while k > 0
        invariant
            k <= line.len(),
            out@ == line@.reverse().take(line.len() - k),
        decreases k,
    {
        k -= 1;
        out.push(line[k]);
        assert(out@ =~= line@.reverse().take(line.len() - k));
    }
    assert(out@ =~= line@.reverse());
    out
}

fn push_spaces(out: &mut Vec<char>, n: usize)
    ensures
        final(out)@ == old(out)@ + spaces(n as int),
{
    let mut i: usize = 0;
    while i < n
        invariant
            i <= n,
            out@ == old(out)@ + spaces(i as int),
        decreases n - i,
    {
        out.push(' ');
        i += 1;
        assert(out@ =~= old(out)@ + spaces(i as int));
    }
}

/// Lays out extracted lines as text in the given line and character directions.
pub fn textmap_to_string(lines: Vec<String>, line_dir: TextDir, char_dir: TextDir) -> (r: String)
    ensures
        r@ == textmap_spec(lines@.map_values(|l: String| l@), line_dir, char_dir),
{
    let ghost input = lines@.map_values(|l: String| l@);
    let reverse_lines = line_dir == TextDir::Btt || line_dir == TextDir::Rtl;
    let ghost ordered = if reverse_lines {
        input.reverse()
    } else {
        input
    };
    let ghost turned = if char_dir == TextDir::Rtl {
        ordered.map_values(|l: Seq<char>| l.reverse())
    } else {
        ordered
    };
    let n = lines.len();
    let mut work: Vec<Vec<char>> = Vec::new();
    let mut widths: Vec<usize> = Vec::new();
    let mut k: usize = 0;
    while k < n
        invariant
            k <= n == lines.len(),
            input == lines@.map_values(|l: String| l@),
            ordered == (if reverse_lines { input.reverse() } else { input }),
            turned == (if char_dir == TextDir::Rtl {
                ordered.map_values(|l: Seq<char>| l.reverse())
            } else {
                ordered
            }),
            work@.len() == k,
            widths@.len() == k,
            forall|j: int| 0 <= j < k ==> (#[trigger] work@[j])@ == turned[j],
            forall|j: int| 0 <= j < k ==> widths@[j] == byte_len(turned[j]),
        decreases n - k,
    {
        let source = if reverse_lines {
            &lines[n - 1 - k]
        } else {
            &lines[k]
        };
        assert(source@ == ordered[k as int]);
        let chars = crate::bidi::spans::chars_of_string(source);
        let line = if char_dir == TextDir::Rtl {
            reversed_chars(&chars)
        } else {
            chars
        };
        let text = source.as_str();
        let width = text.len();
        assert(text@ == source@);
        assert(line@ == turned[k as int]);
        proof {
            lemma_reverse_byte_len(source@);
        }
        assert(width == byte_len(turned[k as int]));
        work.push(line);
        widths.push(width);
        k += 1;
    }
    if line_dir == TextDir::Rtl || line_dir == TextDir::Ltr {
        let mut max_len: usize = 0;
        let mut k: usize = 0;
        while k < n
            invariant
                k <= n == work@.len() == widths@.len(),
                turned.len() == n,
                forall|j: int| 0 <= j < n ==> widths@[j] == byte_len(turned[j]),
                max_len == max_byte_len(turned.take(k as int)),
            decreases n - k,
        {
            assert(turned.take(k + 1).drop_last() =~= turned.take(k as int));
            if widths[k] > max_len {
                max_len = widths[k];
            }
            k += 1;
        }
        assert(turned.take(n as int) =~= turned);
        let ghost padded = turned.map_values(|l: Seq<char>| pad_line(l, max_len as int, char_dir == TextDir::Btt));
        let mut cells: Vec<Vec<char>> = Vec::new();
        let mut k: usize = 0;
        while k < n
            invariant
                k <= n == work@.len() == widths@.len(),
                turned.len() == n,
                max_len == max_byte_len(turned),
                padded == turned.map_values(|l: Seq<char>| pad_line(l, max_len as int, char_dir == TextDir::Btt)),
                forall|j: int| 0 <= j < n ==> (#[trigger] work@[j])@ == turned[j],
                forall|j: int| 0 <= j < n ==> widths@[j] == byte_len(turned[j]),
                cells@.len() == k,
                forall|j: int| 0 <= j < k ==> (#[trigger] cells@[j])@ == padded[j],
            decreases n - k,
        {
            proof {
                lemma_max_byte_len(turned, k as int);
            }
            let pad = max_len - widths[k];
            let mut padded_line: Vec<char> = Vec::new();
            if char_dir == TextDir::Btt {
                push_spaces(&mut padded_line, pad);
                let mut copy = copy_vec(&work[k]);
                padded_line.append(&mut copy);
            } else {
                padded_line = copy_vec(&work[k]);
                push_spaces(&mut padded_line, pad);
            }
            assert(padded_line@ =~= padded[k as int]);
            cells.push(padded_line);
            k += 1;
        }
        let mut out: Vec<char> = Vec::new();
        let mut i: usize = 0;
        while i < max_len
            invariant
                i <= max_len,
                cells@.len() == n == padded.len(),
                forall|j: int| 0 <= j < n ==> (#[trigger] cells@[j])@ == padded[j],
                out@ + grid_rows(padded, i as int, max_len as int) == grid_rows(padded, 0, max_len as int),
            decreases max_len - i,
        {
            let ghost before = out@;
            let mut row: Vec<char> = Vec::new();
            let mut k: usize = 0;
            while k < n
                invariant
                    k <= n == cells@.len() == padded.len(),
                    forall|j: int| 0 <= j < n ==> (#[trigger] cells@[j])@ == padded[j],
                    row@ == grid_row(padded, i as int).take(k as int),
                decreases n - k,
            {
                let c = if i < cells[k].len() {
                    cells[k][i]
                } else {
                    ' '
                };
                row.push(c);
                k += 1;
                assert(row@ =~= grid_row(padded, i as int).take(k as int));
            }
            assert(row@ =~= grid_row(padded, i as int));
            out.append(&mut row);
            if i + 1 < max_len {
                out.push('\n');
                assert(before + (grid_row(padded, i as int) + seq!['\n'] + grid_rows(padded, i + 1, max_len as int))
                    =~= out@ + grid_rows(padded, i + 1, max_len as int));
            } else {
                assert(out@ + grid_rows(padded, i + 1, max_len as int) =~= out@);
            }
            i += 1;
        }
        return string_from_chars(&out);
    }
    let mut out: Vec<char> = Vec::new();
    let mut k: usize = 0;
    while k < n
        invariant
            k <= n == work@.len(),
            turned.len() == n,
            forall|j: int| 0 <= j < n ==> (#[trigger] work@[j])@ == turned[j],
            out@ == join_lines(turned.take(k as int)),
        decreases n - k,
    {
        assert(turned.take(k + 1).drop_last() =~= turned.take(k as int));
        if k > 0 {
            out.push('\n');
        } else {
            assert(out@ =~= Seq::<char>::empty());
        }
        let mut line = copy_vec(&work[k]);
        out.append(&mut line);
        k += 1;
        assert(out@ =~= join_lines(turned.take(k as int)));
    }
    assert(turned.take(n as int) =~= turned);
    string_from_chars(&out)
}

fn copy_vec(v: &Vec<char>) -> (r: Vec<char>)
    ensures
        r@ == v@,
{
    crate::bidi::text::copy_chars(v.as_slice())
}

/// Reversing the characters of a line keeps its UTF-8 length.
pub proof fn lemma_reverse_byte_len(s: Seq<char>)
    ensures
        byte_len(s.reverse()) == byte_len(s),
{
    lemma_encode_len_sum(s);
    lemma_encode_len_sum(s.reverse());
    lemma_width_sum_reverse(s);
}

pub open spec fn width_sum(s: Seq<char>) -> int
    decreases s.len(),
{
    if s.len() == 0 {
        0
    } else {
        vstd::utf8::encode_scalar(s[0] as u32).len() + width_sum(s.drop_first())
    }
}

proof fn lemma_encode_len_sum(s: Seq<char>)
    ensures
        encode_utf8(s).len() == width_sum(s),
    decreases s.len(),
{
    if s.len() > 0 {
        lemma_encode_len_sum(s.drop_first());
    }
}

proof fn lemma_width_sum_append(a: Seq<char>, b: Seq<char>)
    ensures
        width_sum(a + b) == width_sum(a) + width_sum(b),
    decreases a.len(),
{
    if a.len() == 0 {
        assert(a + b =~= b);
    } else {
        assert((a + b).drop_first() =~= a.drop_first() + b);
        lemma_width_sum_append(a.drop_first(), b);
    }
}

proof fn lemma_width_sum_reverse(s: Seq<char>)
    ensures
        width_sum(s.reverse()) == width_sum(s),
    decreases s.len(),
{
    if s.len() > 0 {
        lemma_width_sum_reverse(s.drop_first());
        assert(s.reverse() =~= s.drop_first().reverse() + seq![s[0]]);
        lemma_width_sum_append(s.drop_first().reverse(), seq![s[0]]);
        assert(seq![s[0]].drop_first() =~= Seq::<char>::empty());
        assert(width_sum(seq![s[0]]) == vstd::utf8::encode_scalar(s[0] as u32).len() + width_sum(
            seq![s[0]].drop_first(),
        ));
    }
}

/// No line is wider than the widest.
proof fn lemma_max_byte_len(lines: Seq<Seq<char>>, k: int)
    requires
        0 <= k < lines.len(),
    ensures
        byte_len(lines[k]) <= max_byte_len(lines),
        max_byte_len(lines) >= 0,
    decreases lines.len(),
{
    if k < lines.len() - 1 {
        lemma_max_byte_len(lines.drop_last(), k);
    } else if lines.len() > 1 {
        lemma_max_byte_len(lines.drop_last(), 0);
    }
}

/// A piece of a line's text and the index of the word it came from.
pub type PieceView = (Seq<char>, usize);

pub open spec fn piece_view(p: (String, usize)) -> PieceView {
    (p.0@, p.1)
}

pub open spec fn pieces_view(p: Seq<(String, usize)>) -> Seq<PieceView> {
    p.map_values(|x: (String, usize)| piece_view(x))
}

pub open spec fn strings_view(v: Seq<String>) -> Seq<Seq<char>> {
    v.map_values(|t: String| t@)
}

/// The pieces' texts, in order.
pub open spec fn pieces_text(p: Seq<PieceView>) -> Seq<char>
    decreases p.len(),
{
    if p.len() == 0 {
        Seq::empty()
    } else {
        pieces_text(p.drop_last()) + p.last().0
    }
}

/// The word positions `0`, ..., `n - 1`.
pub open spec fn positions(n: nat) -> Seq<usize> {
    Seq::new(n, |i: int| i as usize)
}

pub open spec fn word_classes(words: Seq<Seq<char>>) -> Seq<WordBidiClass> {
    words.map_values(|w: Seq<char>| word_class_of(w))
}

/// The words at the first `p` positions of `order`, each after a one-space
/// piece but the first, each piece tied to its word's position.
pub open spec fn joined_pieces(order: Seq<usize>, texts: Seq<Seq<char>>, p: int) -> Seq<PieceView>
    decreases p,
{
    if p <= 0 {
        Seq::empty()
    } else {
        let k = order[p - 1];
        joined_pieces(order, texts, p - 1) + (if p > 1 {
            seq![(seq![' '], k)]
        } else {
            Seq::empty()
        }) + seq![(texts[k as int], k)]
    }
}

/// The words with a one-space element between each two.
pub open spec fn interleaved(words: Seq<Seq<char>>) -> Seq<Seq<char>>
    decreases words.len(),
{
    if words.len() == 0 {
        Seq::empty()
    } else if words.len() == 1 {
        words
    } else {
        interleaved(words.drop_last()) + seq![seq![' '], words.last()]
    }
}

/// The reconstructed pieces of a geometric line: the words, with one space
/// between each two, reconstructed as the elements of a layout line, each
/// span tied to the word its element stands for (a space to the word before).
pub open spec fn reconstructed_pieces(words: Seq<Seq<char>>) -> Seq<PieceView> {
    let t = interleaved(words);
    reconstruct_spans_spec(concat_texts(t), element_scalars(t), false).map_values(
        |x: (usize, Seq<char>)| (x.1, x.0 / 2),
    )
}

/// Whether the words of a line are reconstructed as one mixed line.
pub open spec fn reconstructs_as_mixed(words: Seq<Seq<char>>) -> bool {
    words.len() > 0 && has_compact_mixed(words.last()) && first_alnum_is_ltr(words.last(), 0) && forall|i: int|
        0 <= i < words.len() - 1 ==> !has_rtl_script(#[trigger] words[i])
}

/// The pieces of one line of a cell, its words given in geometric order.
/// With `bidi`, a line that reconstructs as one mixed line is reconstructed,
/// and any other has its words put in the legacy reading order, each with the
/// legacy output policy.  Without `bidi`, the words are kept, put in the
/// legacy reading order when characters run left to right.
pub open spec fn line_pieces(words: Seq<Seq<char>>, char_dir: TextDir, bidi: bool) -> Seq<PieceView> {
    let n = words.len();
    if bidi {
        if reconstructs_as_mixed(words) {
            reconstructed_pieces(words)
        } else {
            let order = reorder_words_spec(positions(n), word_classes(words));
            joined_pieces(order, words.map_values(|w: Seq<char>| legacy_output_spec(w)), order.len() as int)
        }
    } else {
        let order = if char_dir == TextDir::Ltr {
            reorder_words_spec(positions(n), word_classes(words))
        } else {
            positions(n)
        };
        joined_pieces(order, words, order.len() as int)
    }
}

/// The text of each line of a cell.
pub open spec fn cell_line_texts(lines: Seq<Seq<Seq<char>>>, char_dir: TextDir, bidi: bool) -> Seq<Seq<char>> {
    lines.map_values(|words: Seq<Seq<char>>| pieces_text(line_pieces(words, char_dir, bidi)))
}

/// Where line `l` starts in the lines joined by line feeds.
pub open spec fn line_start(texts: Seq<Seq<char>>, l: int) -> int
    decreases l,
{
    if l <= 0 {
        0
    } else {
        line_start(texts, l - 1) + texts[l - 1].len() + 1
    }
}

/// A span as (text, line, word, start, end).
pub type SpanEntry = (Seq<char>, int, int, int, int);

pub open spec fn text_span_view(s: TextSpan) -> SpanEntry {
    (s.text@, s.line_index as int, s.word_index as int, s.start as int, s.end as int)
}

/// The spans of the first `j` pieces of line `line`, which starts at `base`:
/// one for each piece that is not all white space, at its offset.
pub open spec fn line_spans(pieces: Seq<PieceView>, line: int, base: int, j: int) -> Seq<SpanEntry>
    decreases j,
{
    if j <= 0 || j > pieces.len() {
        Seq::empty()
    } else {
        let prev = line_spans(pieces, line, base, j - 1);
        let start = base + pieces_text(pieces.take(j - 1)).len();
        let p = pieces[j - 1];
        if all_white_space(p.0) {
            prev
        } else {
            prev.push((p.0, line, p.1 as int, start, start + p.0.len()))
        }
    }
}

/// The spans of the first `l` lines, each line's pieces given by `per_line`.
pub open spec fn cell_spans(per_line: Seq<Seq<PieceView>>, l: int) -> Seq<SpanEntry>
    decreases l,
{
    if l <= 0 || l > per_line.len() {
        Seq::empty()
    } else {
        cell_spans(per_line, l - 1) + line_spans(
            per_line[l - 1],
            l - 1,
            line_start(per_line.map_values(|p: Seq<PieceView>| pieces_text(p)), l - 1),
            per_line[l - 1].len() as int,
        )
    }
}

/// Every span's offsets address its text in `text`.
pub open spec fn spans_address(spans: Seq<SpanEntry>, text: Seq<char>) -> bool {
    forall|k: int|
        0 <= k < spans.len() ==> 0 <= (#[trigger] spans[k]).3 <= spans[k].4 <= text.len() && text.subrange(
            spans[k].3,
            spans[k].4,
        ) == spans[k].0
}

proof fn lemma_pieces_take(p: Seq<PieceView>, j: int)
    requires
        0 <= j < p.len(),
    ensures
        pieces_text(p.take(j + 1)) == pieces_text(p.take(j)) + p[j].0,
{
    assert(p.take(j + 1).drop_last() =~= p.take(j));
}

/// Each piece stands at its offset in the pieces' text.
proof fn lemma_piece_at(p: Seq<PieceView>, j: int)
    requires
        0 <= j < p.len(),
    ensures
        pieces_text(p.take(j)).len() + p[j].0.len() <= pieces_text(p).len(),
        pieces_text(p).subrange(
            pieces_text(p.take(j)).len() as int,
            pieces_text(p.take(j)).len() + p[j].0.len() as int,
        ) == p[j].0,
    decreases p.len(),
{
    let q = p.drop_last();
    if j == p.len() - 1 {
        assert(p.take(j) =~= q);
        assert(pieces_text(p) == pieces_text(q) + p.last().0);
    } else {
        lemma_piece_at(q, j);
        assert(q.take(j) =~= p.take(j));
        assert(q[j] == p[j]);
        let o = pieces_text(p.take(j)).len() as int;
        assert(pieces_text(p).subrange(o, o + p[j].0.len()) =~= pieces_text(q).subrange(o, o + p[j].0.len()));
    }
}

proof fn lemma_line_start_agree(a: Seq<Seq<char>>, b: Seq<Seq<char>>, l: int)
    requires
        0 <= l <= a.len(),
        l <= b.len(),
        forall|i: int| 0 <= i < l ==> a[i] == b[i],
    ensures
        line_start(a, l) == line_start(b, l),
    decreases l,
{
    if l > 0 {
        lemma_line_start_agree(a, b, l - 1);
    }
}

proof fn lemma_join_len(texts: Seq<Seq<char>>)
    requires
        texts.len() >= 1,
    ensures
        join_lines(texts).len() == line_start(texts, texts.len() - 1) + texts.last().len(),
    decreases texts.len(),
{
    if texts.len() > 1 {
        let q = texts.drop_last();
        lemma_join_len(q);
        lemma_line_start_agree(q, texts, q.len() - 1);
    }
}

/// Each line stands at its start in the lines joined by line feeds.
proof fn lemma_join_line(texts: Seq<Seq<char>>, l: int)
    requires
        0 <= l < texts.len(),
    ensures
        0 <= line_start(texts, l),
        line_start(texts, l) + texts[l].len() <= join_lines(texts).len(),
        join_lines(texts).subrange(line_start(texts, l), line_start(texts, l) + texts[l].len()) == texts[l],
    decreases texts.len(),
{
    if texts.len() == 1 {
        assert(join_lines(texts).subrange(0, texts[0].len() as int) =~= texts[0]);
    } else {
        let q = texts.drop_last();
        let a = join_lines(q);
        assert(join_lines(texts) == a + seq!['\n'] + texts.last());
        if l == texts.len() - 1 {
            lemma_join_len(q);
            lemma_line_start_agree(q, texts, q.len() - 1);
            lemma_join_line(q, 0);
            assert(line_start(texts, l) == a.len() + 1);
            assert(join_lines(texts).subrange(a.len() + 1 as int, a.len() + 1 + texts[l].len() as int) =~= texts[l]);
        } else {
            lemma_join_line(q, l);
            lemma_line_start_agree(q, texts, l);
            let st = line_start(texts, l);
            assert(join_lines(texts).subrange(st, st + texts[l].len()) =~= a.subrange(st, st + texts[l].len()));
        }
    }
}

proof fn lemma_line_spans_address(pieces: Seq<PieceView>, line: int, base: int, j: int, text: Seq<char>)
    requires
        0 <= j <= pieces.len(),
        0 <= base,
        base + pieces_text(pieces).len() <= text.len(),
        text.subrange(base, base + pieces_text(pieces).len()) == pieces_text(pieces),
    ensures
        spans_address(line_spans(pieces, line, base, j), text),
    decreases j,
{
    if j > 0 {
        lemma_line_spans_address(pieces, line, base, j - 1, text);
        let p = pieces[j - 1];
        if !all_white_space(p.0) {
            lemma_piece_at(pieces, j - 1);
            let o = pieces_text(pieces.take(j - 1)).len() as int;
            let t = pieces_text(pieces);
            assert(text.subrange(base + o, base + o + p.0.len()) =~= text.subrange(base, base + t.len()).subrange(
                o,
                o + p.0.len(),
            ));
            let prev = line_spans(pieces, line, base, j - 1);
            let all = line_spans(pieces, line, base, j);
            assert forall|k: int| 0 <= k < all.len() implies 0 <= (#[trigger] all[k]).3 <= all[k].4 <= text.len()
                && text.subrange(all[k].3, all[k].4) == all[k].0 by {
                if k < prev.len() {
                    assert(all[k] == prev[k]);
                }
            }
        }
    }
}

/// Each span ends where a later one may start at the earliest.
pub open spec fn spans_in_order(spans: Seq<SpanEntry>) -> bool {
    forall|a: int, b: int| 0 <= a < b < spans.len() ==> (#[trigger] spans[a]).4 <= (#[trigger] spans[b]).3
}

proof fn lemma_line_spans_in_order(pieces: Seq<PieceView>, line: int, base: int, j: int)
    requires
        0 <= j <= pieces.len(),
    ensures
        spans_in_order(line_spans(pieces, line, base, j)),
        forall|k: int|
            0 <= k < line_spans(pieces, line, base, j).len() ==> base <= (#[trigger] line_spans(
                pieces,
                line,
                base,
                j,
            )[k]).3 <= line_spans(pieces, line, base, j)[k].4 <= base + pieces_text(pieces.take(j)).len(),
    decreases j,
{
    if j > 0 {
        lemma_line_spans_in_order(pieces, line, base, j - 1);
        lemma_pieces_take(pieces, j - 1);
        let prev = line_spans(pieces, line, base, j - 1);
        let all = line_spans(pieces, line, base, j);
        assert forall|k: int| 0 <= k < prev.len() implies base <= (#[trigger] prev[k]).3 <= prev[k].4 <= base
            + pieces_text(pieces.take(j)).len() by {}
        if !all_white_space(pieces[j - 1].0) {
            assert forall|a: int, b: int| 0 <= a < b < all.len() implies (#[trigger] all[a]).4 <= (#[trigger] all[b]).3 by {
                assert(all[a] == prev[a]);
                if b < prev.len() {
                    assert(all[b] == prev[b]);
                }
            }
            assert forall|k: int| 0 <= k < all.len() implies base <= (#[trigger] all[k]).3 <= all[k].4 <= base
                + pieces_text(pieces.take(j)).len() by {
                if k < prev.len() {
                    assert(all[k] == prev[k]);
                }
            }
        }
    }
}

/// The spans of a cell come in the order of the text: each ends before the
/// next one starts.
pub proof fn lemma_cell_spans_in_order(per_line: Seq<Seq<PieceView>>, l: int)
    requires
        0 <= l <= per_line.len(),
    ensures
        spans_in_order(cell_spans(per_line, l)),
        forall|k: int|
            0 <= k < cell_spans(per_line, l).len() ==> (#[trigger] cell_spans(per_line, l)[k]).4 <= line_start(
                per_line.map_values(|p: Seq<PieceView>| pieces_text(p)),
                l,
            ),
    decreases l,
{
    let texts = per_line.map_values(|p: Seq<PieceView>| pieces_text(p));
    if l > 0 {
        lemma_cell_spans_in_order(per_line, l - 1);
        let pieces = per_line[l - 1];
        let base = line_start(texts, l - 1);
        lemma_line_spans_in_order(pieces, l - 1, base, pieces.len() as int);
        assert(pieces.take(pieces.len() as int) =~= pieces);
        assert(texts[l - 1] == pieces_text(pieces));
        let prev = cell_spans(per_line, l - 1);
        let more = line_spans(pieces, l - 1, base, pieces.len() as int);
        let all = cell_spans(per_line, l);
        assert(all == prev + more);
        assert forall|a: int, b: int| 0 <= a < b < all.len() implies (#[trigger] all[a]).4 <= (#[trigger] all[b]).3 by {
            if b < prev.len() {
                assert(all[a] == prev[a] && all[b] == prev[b]);
            } else if a < prev.len() {
                assert(all[a] == prev[a] && all[b] == more[b - prev.len()]);
            } else {
                assert(all[a] == more[a - prev.len()] && all[b] == more[b - prev.len()]);
            }
        }
        assert forall|k: int| 0 <= k < all.len() implies (#[trigger] all[k]).4 <= line_start(texts, l) by {
            if k < prev.len() {
                assert(all[k] == prev[k]);
            } else {
                assert(all[k] == more[k - prev.len()]);
            }
        }
    }
}

/// The spans of a cell's lines address the lines joined by line feeds.
pub proof fn lemma_cell_spans_address(per_line: Seq<Seq<PieceView>>, l: int)
    requires
        0 <= l <= per_line.len(),
    ensures
        spans_address(cell_spans(per_line, l), join_lines(per_line.map_values(|p: Seq<PieceView>| pieces_text(p)))),
    decreases l,
{
    let texts = per_line.map_values(|p: Seq<PieceView>| pieces_text(p));
    let text = join_lines(texts);
    if l > 0 {
        lemma_cell_spans_address(per_line, l - 1);
        lemma_join_line(texts, l - 1);
        let base = line_start(texts, l - 1);
        lemma_line_spans_address(per_line[l - 1], l - 1, base, per_line[l - 1].len() as int, text);
        let prev = cell_spans(per_line, l - 1);
        let more = line_spans(per_line[l - 1], l - 1, base, per_line[l - 1].len() as int);
        let all = cell_spans(per_line, l);
        assert(all == prev + more);
        assert forall|k: int| 0 <= k < all.len() implies 0 <= (#[trigger] all[k]).3 <= all[k].4 <= text.len()
            && text.subrange(all[k].3, all[k].4) == all[k].0 by {
            if k < prev.len() {
                assert(all[k] == prev[k]);
            } else {
                assert(all[k] == more[k - prev.len()]);
            }
        }
    }
}

/// The legacy reading order of `n` positions holds each position once.
proof fn lemma_order_in_range(n: nat, classes: Seq<WordBidiClass>)
    requires
        classes.len() == n,
    ensures
        reorder_words_spec(positions(n), classes).len() == n,
        forall|i: int|
            0 <= i < n ==> #[trigger] reorder_words_spec(positions(n), classes)[i] < n,
{
    broadcast use vstd::seq_lib::group_to_multiset_ensures;

    let r = reorder_words_spec(positions(n), classes);
    crate::bidi::words::lemma_reorder_words_permutes(positions(n), classes);
    assert(r.len() == r.to_multiset().len());
    assert(positions(n).len() == positions(n).to_multiset().len());
    assert forall|i: int| 0 <= i < n implies #[trigger] r[i] < n by {
        assert(r.contains(r[i]));
        assert(r.to_multiset().count(r[i]) > 0);
        assert(positions(n).to_multiset().count(r[i]) > 0);
        assert(positions(n).contains(r[i]));
    }
}

fn space_string() -> (r: String)
    ensures
        r@ == seq![' '],
{
    let mut s = String::new();
    string_push(&mut s, ' ');
    s
}

/// The positions of `texts`' words in reading order: the legacy order when
/// `reorder`, else geometric order.
fn word_order(texts: &Vec<String>, reorder: bool) -> (r: Vec<usize>)
    ensures
        r@ == (if reorder {
            reorder_words_spec(positions(texts.len() as nat), word_classes(strings_view(texts@)))
        } else {
            positions(texts.len() as nat)
        }),
        r.len() == texts.len(),
        forall|i: int| 0 <= i < r.len() ==> #[trigger] r[i] < texts.len(),
{
    let mut order: Vec<usize> = Vec::new();
    let mut i: usize = 0;
    while i < texts.len()
        invariant
            i <= texts.len(),
            order@ == positions(i as nat),
        decreases texts.len() - i,
    {
        order.push(i);
        i += 1;
        assert(order@ =~= positions(i as nat));
    }
    if reorder {
        proof {
            lemma_order_in_range(texts.len() as nat, word_classes(strings_view(texts@)));
            assert(word_classes(strings_view(texts@)) =~= texts@.map_values(|t: String| word_class_of(t@)));
        }
        crate::bidi::words::reorder_visual_word_runs(order, texts)
    } else {
        order
    }
}

/// The words of `texts` at the positions of `order`, a one-space piece
/// before each but the first.
fn join_pieces(order: &Vec<usize>, texts: &Vec<String>) -> (r: Vec<(String, usize)>)
    requires
        forall|i: int| 0 <= i < order.len() ==> #[trigger] order[i] < texts.len(),
    ensures
        pieces_view(r@) == joined_pieces(order@, strings_view(texts@), order.len() as int),
        forall|k: int| 0 <= k < r.len() ==> (#[trigger] r[k]).1 < texts.len(),
{
    let mut out: Vec<(String, usize)> = Vec::new();
    let mut p: usize = 0;
    while p < order.len()
        invariant
            p <= order.len(),
            forall|i: int| 0 <= i < order.len() ==> #[trigger] order[i] < texts.len(),
            pieces_view(out@) == joined_pieces(order@, strings_view(texts@), p as int),
            forall|k: int| 0 <= k < out.len() ==> (#[trigger] out[k]).1 < texts.len(),
        decreases order.len() - p,
    {
        let k = order[p];
        let ghost before = pieces_view(out@);
        if p > 0 {
            out.push((space_string(), k));
        }
        out.push((texts[k].clone(), k));
        p += 1;
        assert(pieces_view(out@) =~= joined_pieces(order@, strings_view(texts@), p as int));
    }
    out
}

/// The reconstructed pieces of a geometric line of `words`.
proof fn lemma_element_scalar_ids(texts: Seq<Seq<char>>, k: int)
    requires
        0 <= k < element_scalars(texts).len(),
    ensures
        element_scalars(texts)[k].source_index < texts.len(),
    decreases texts.len(),
{
    if texts.len() > 0 {
        let q = texts.drop_last();
        if k < element_scalars(q).len() {
            lemma_element_scalar_ids(q, k);
        }
    }
}

fn mixed_line_pieces(words: &Vec<String>) -> (r: Vec<(String, usize)>)
    ensures
        pieces_view(r@) == reconstructed_pieces(strings_view(words@)),
        forall|k: int| 0 <= k < r.len() ==> (#[trigger] r[k]).1 < words.len(),
{
    let mut elements: Vec<String> = Vec::new();
    let mut i: usize = 0;
    while i < words.len()
        invariant
            i <= words.len(),
            strings_view(elements@) == interleaved(strings_view(words@).take(i as int)),
            elements.len() == if i == 0 { 0 } else { 2 * i - 1 },
        decreases words.len() - i,
    {
        let ghost before = strings_view(elements@);
        if i > 0 {
            elements.push(space_string());
        }
        elements.push(words[i].clone());
        proof {
            let w = strings_view(words@).take(i + 1);
            assert(w.drop_last() =~= strings_view(words@).take(i as int));
            assert(w.last() == words@[i as int]@);
            if i == 0 {
                assert(interleaved(w) == w);
                assert(strings_view(elements@) =~= seq![words@[0]@]);
            } else {
                assert(interleaved(w) == interleaved(w.drop_last()) + seq![seq![' '], w.last()]);
                assert(strings_view(elements@) =~= before + seq![seq![' '], words@[i as int]@]);
            }
        }
        i += 1;
        assert(strings_view(elements@) =~= interleaved(strings_view(words@).take(i as int)));
    }
    assert(strings_view(words@).take(words.len() as int) =~= strings_view(words@));
    let (raw, source) = crate::bidi::lines::source_scalars(&elements);
    let line = crate::bidi::lines::reconstruct_source(raw, source, false);
    let ghost spans = spans_view(line.spans@);
    let ghost scalars = element_scalars(elements@.map_values(|t: String| t@));
    let mut out: Vec<(String, usize)> = Vec::new();
    let mut j: usize = 0;
    while j < line.spans.len()
        invariant
            j <= line.spans.len(),
            spans == spans_view(line.spans@),
            pieces_view(out@) == spans.take(j as int).map_values(|x: (usize, Seq<char>)| (x.1, x.0 / 2)),
            crate::bidi::spans::span_ids(spans).subset_of(crate::bidi::spans::source_ids(scalars)),
            scalars == element_scalars(elements@.map_values(|t: String| t@)),
            elements.len() == if words.len() == 0 { 0 } else { 2 * words.len() - 1 },
            forall|k: int| 0 <= k < out.len() ==> (#[trigger] out[k]).1 < words.len(),
        decreases line.spans.len() - j,
    {
        proof {
            let x = line.spans@[j as int].source_index;
            assert(spans[j as int].0 == x);
            assert(crate::bidi::spans::span_ids(spans).contains(x));
            assert(crate::bidi::spans::source_ids(scalars).contains(x));
            let m = choose|m: int| 0 <= m < scalars.len() && scalars[m].source_index == x;
            lemma_element_scalar_ids(elements@.map_values(|t: String| t@), m);
        }
        let ghost prev = pieces_view(out@);
        let text = line.spans[j].text.clone();
        let index = line.spans[j].source_index / 2;
        out.push((text, index));
        assert(spans[j as int] == (line.spans@[j as int].source_index, line.spans@[j as int].text@));
        assert(pieces_view(out@) =~= prev.push((spans[j as int].1, spans[j as int].0 / 2)));
        j += 1;
        assert(pieces_view(out@) =~= spans.take(j as int).map_values(|x: (usize, Seq<char>)| (x.1, x.0 / 2)));
    }
    assert(spans.take(line.spans.len() as int) =~= spans);
    assert(strings_view(elements@) == elements@.map_values(|t: String| t@));
    out
}

/// The pieces of one line of a cell, its words given in geometric order (see
/// `line_pieces`).
pub fn line_pieces_of(words: &Vec<String>, char_dir: TextDir, bidi: bool) -> (r: Vec<(String, usize)>)
    ensures
        pieces_view(r@) == line_pieces(strings_view(words@), char_dir, bidi),
        forall|k: int| 0 <= k < r.len() ==> (#[trigger] r[k]).1 < words.len(),
{
    let ghost w = strings_view(words@);
    proof {
        assert(w.len() > 0 ==> w.last() == words@.last()@);
        assert(forall|i: int| 0 <= i < w.len() ==> #[trigger] w[i] == words@[i]@);
    }
    if bidi {
        let mixed = should_reconstruct_geometric_line(words);
        proof {
            if mixed != reconstructs_as_mixed(w) {
                if mixed {
                    assert forall|i: int| 0 <= i < w.len() - 1 implies !has_rtl_script(#[trigger] w[i]) by {
                        assert(!has_rtl_script(words@[i]@));
                    }
                } else {
                    assert forall|i: int| 0 <= i < words@.len() - 1 implies !has_rtl_script(#[trigger] words@[i]@) by {
                        assert(!has_rtl_script(w[i]));
                    }
                }
            }
        }
        if mixed {
            return mixed_line_pieces(words);
        }
        let order = word_order(words, true);
        let mut outs: Vec<String> = Vec::new();
        let mut i: usize = 0;
        while i < words.len()
            invariant
                i <= words.len(),
                w == strings_view(words@),
                strings_view(outs@) == w.take(i as int).map_values(|t: Seq<char>| legacy_output_spec(t)),
            decreases words.len() - i,
        {
            let ghost before = strings_view(outs@);
            outs.push(reorder_text_for_output(words[i].as_str()));
            assert(strings_view(outs@) =~= before.push(legacy_output_spec(w[i as int])));
            assert(w.take(i + 1) =~= w.take(i as int).push(w[i as int]));
            i += 1;
            assert(strings_view(outs@) =~= w.take(i as int).map_values(|t: Seq<char>| legacy_output_spec(t)));
        }
        assert(w.take(words.len() as int) =~= w);
        assert(word_classes(w) == word_classes(strings_view(words@)));
        join_pieces(&order, &outs)
    } else {
        let order = word_order(words, char_dir == TextDir::Ltr);
        join_pieces(&order, words)
    }
}

/// The pieces' texts, in order.
fn pieces_string(p: &Vec<(String, usize)>) -> (r: String)
    ensures
        r@ == pieces_text(pieces_view(p@)),
{
    let mut out = String::new();
    let mut j: usize = 0;
    while j < p.len()
        invariant
            j <= p.len(),
            out@ == pieces_text(pieces_view(p@).take(j as int)),
        decreases p.len() - j,
    {
        out.append(p[j].0.as_str());
        proof {
            lemma_pieces_take(pieces_view(p@), j as int);
        }
        j += 1;
    }
    assert(pieces_view(p@).take(p.len() as int) =~= pieces_view(p@));
    out
}

/// Whether every character of `s` is white space.
fn is_blank(s: &String) -> (r: bool)
    ensures
        r == all_white_space(s@),
{
    let chars = crate::bidi::spans::chars_of_string(s);
    let mut k: usize = 0;
    while k < chars.len()
        invariant
            k <= chars.len(),
            chars@ == s@,
            forall|i: int| 0 <= i < k ==> unicode_white_space(#[trigger] chars@[i]),
        decreases chars.len() - k,
    {
        if !char_is_whitespace(chars[k]) {
            return false;
        }
        k += 1;
    }
    true
}

pub open spec fn lines_view(lines: Seq<Vec<String>>) -> Seq<Seq<Seq<char>>> {
    lines.map_values(|v: Vec<String>| strings_view(v@))
}

/// The pieces of each line of a cell.
pub open spec fn cell_pieces(lines: Seq<Seq<Seq<char>>>, char_dir: TextDir, bidi: bool) -> Seq<Seq<PieceView>> {
    lines.map_values(|words: Seq<Seq<char>>| line_pieces(words, char_dir, bidi))
}

/// Whether span offsets address the laid-out text: only when lines are
/// joined top to bottom and characters are not reversed.
pub open spec fn offsets_addressable(line_dir: TextDir, char_dir: TextDir) -> bool {
    line_dir == TextDir::Ttb && char_dir != TextDir::Rtl
}

/// The text of a table cell whose lines hold `lines` (each line's words in
/// geometric order), laid out in the line and character directions, and,
/// when `want_spans` and the offsets address the text, a span for each
/// piece that is not all white space: its text, line, source word, and its
/// character offsets in the result.
pub fn cell_text_with_spans(
    lines: &Vec<Vec<String>>,
    line_dir: TextDir,
    char_dir: TextDir,
    bidi: bool,
    want_spans: bool,
) -> (r: (String, Vec<TextSpan>))
    ensures
        r.0@ == textmap_spec(cell_line_texts(lines_view(lines@), char_dir, bidi), line_dir, char_dir),
        want_spans && offsets_addressable(line_dir, char_dir) ==> r.1@.map_values(|x: TextSpan| text_span_view(x))
            == cell_spans(cell_pieces(lines_view(lines@), char_dir, bidi), lines.len() as int),
        !(want_spans && offsets_addressable(line_dir, char_dir)) ==> r.1.len() == 0,
        forall|k: int|
            0 <= k < r.1.len() ==> (#[trigger] r.1[k]).start <= r.1[k].end <= r.0@.len() && r.0@.subrange(
                r.1[k].start as int,
                r.1[k].end as int,
            ) == r.1[k].text@,
        forall|k: int|
            0 <= k < r.1.len() ==> (#[trigger] r.1[k]).line_index < lines.len() && r.1[k].word_index
                < lines[r.1[k].line_index as int].len(),
        forall|a: int, b: int| 0 <= a < b < r.1.len() ==> (#[trigger] r.1[a]).end <= (#[trigger] r.1[b]).start,
{
    let ghost lv = lines_view(lines@);
    let ghost pl = cell_pieces(lv, char_dir, bidi);
    let ghost tv = pl.map_values(|p: Seq<PieceView>| pieces_text(p));
    let mut per_line: Vec<Vec<(String, usize)>> = Vec::new();
    let mut texts: Vec<String> = Vec::new();
    let mut i: usize = 0;
    while i < lines.len()
        invariant
            i <= lines.len(),
            lv == lines_view(lines@),
            pl == cell_pieces(lv, char_dir, bidi),
            tv == pl.map_values(|p: Seq<PieceView>| pieces_text(p)),
            per_line.len() == i,
            forall|k: int| 0 <= k < i ==> pieces_view((#[trigger] per_line@[k])@) == pl[k],
            forall|k: int, m: int|
                0 <= k < i && 0 <= m < per_line@[k]@.len() ==> (#[trigger] per_line@[k]@[m]).1 < lines@[k].len(),
            strings_view(texts@) == tv.take(i as int),
        decreases lines.len() - i,
    {
        let p = line_pieces_of(&lines[i], char_dir, bidi);
        assert(lv[i as int] == strings_view(lines@[i as int]@));
        assert(pl[i as int] == line_pieces(lv[i as int], char_dir, bidi));
        assert(tv[i as int] == pieces_text(pl[i as int]));
        let ghost before = strings_view(texts@);
        texts.push(pieces_string(&p));
        assert(strings_view(texts@) =~= before.push(tv[i as int]));
        assert(tv.take(i + 1) =~= tv.take(i as int).push(tv[i as int]));
        per_line.push(p);
        i += 1;
        assert(strings_view(texts@) =~= tv.take(i as int));
    }
    proof {
        assert(tv.take(lines.len() as int) =~= tv);
        assert(cell_line_texts(lv, char_dir, bidi) =~= tv);
    }
    let text = textmap_to_string(texts, line_dir, char_dir);
    if !(want_spans && line_dir == TextDir::Ttb && char_dir != TextDir::Rtl) {
        return (text, Vec::new());
    }
    let chars = chars_of_str(text.as_str());
    let total = chars.len();
    proof {
        assert(text@ == join_lines(tv));
        lemma_cell_spans_address(pl, pl.len() as int);
    }
    let mut spans: Vec<TextSpan> = Vec::new();
    let mut cursor: usize = 0;
    let mut l: usize = 0;
    while l < per_line.len()
        invariant
            l <= per_line.len(),
            per_line.len() == pl.len(),
            tv.len() == pl.len(),
            forall|k: int| 0 <= k < per_line.len() ==> pieces_view((#[trigger] per_line@[k])@) == pl[k],
            tv == pl.map_values(|p: Seq<PieceView>| pieces_text(p)),
            chars@ == join_lines(tv),
            chars@.len() == total,
            l == 0 ==> cursor == 0,
            l > 0 ==> cursor + 1 == line_start(tv, l as int),
            spans@.map_values(|x: TextSpan| text_span_view(x)) == cell_spans(pl, l as int),
            per_line.len() == lines.len(),
            forall|k: int, m: int|
                0 <= k < per_line.len() && 0 <= m < per_line@[k]@.len() ==> (#[trigger] per_line@[k]@[m]).1 < lines@[k].len(),
            forall|k: int|
                0 <= k < spans.len() ==> (#[trigger] spans@[k]).line_index < lines.len() && spans@[k].word_index
                    < lines@[spans@[k].line_index as int].len(),
        decreases per_line.len() - l,
    {
        let ghost pieces = pl[l as int];
        let ghost base = line_start(tv, l as int);
        let ghost before = spans@.map_values(|x: TextSpan| text_span_view(x));
        proof {
            lemma_join_line(tv, l as int);
            assert(tv[l as int] == pieces_text(pieces));
        }
        if l > 0 {
            cursor += 1;
        }
        let mut j: usize = 0;
        while j < per_line[l].len()
            invariant
                l < per_line.len(),
                j <= per_line[l as int]@.len(),
                pieces_view(per_line@[l as int]@) == pieces,
                pieces.len() == per_line@[l as int]@.len(),
                0 <= base,
                base + pieces_text(pieces).len() <= chars@.len(),
                chars@.len() == total,
                cursor == base + pieces_text(pieces.take(j as int)).len(),
                spans@.map_values(|x: TextSpan| text_span_view(x)) == before + line_spans(pieces, l as int, base, j as int),
                per_line.len() == lines.len(),
                forall|k: int, m: int|
                    0 <= k < per_line.len() && 0 <= m < per_line@[k]@.len() ==> (#[trigger] per_line@[k]@[m]).1 < lines@[k].len(),
                forall|k: int|
                    0 <= k < spans.len() ==> (#[trigger] spans@[k]).line_index < lines.len() && spans@[k].word_index
                        < lines@[spans@[k].line_index as int].len(),
            decreases per_line[l as int]@.len() - j,
        {
            proof {
                lemma_piece_at(pieces, j as int);
                lemma_pieces_take(pieces, j as int);
            }
            let piece = &per_line[l][j];
            assert(pieces[j as int] == (piece.0@, piece.1));
            let length = crate::bidi::spans::chars_of_string(&piece.0).len();
            let ghost prev = spans@.map_values(|x: TextSpan| text_span_view(x));
            if !is_blank(&piece.0) {
                spans.push(TextSpan {
                    text: piece.0.clone(),
                    line_index: l,
                    word_index: piece.1,
                    start: cursor,
                    end: cursor + length,
                });
                assert(spans@.map_values(|x: TextSpan| text_span_view(x)) =~= prev.push(
                    (piece.0@, l as int, piece.1 as int, cursor as int, cursor + length),
                ));
            }
            cursor += length;
            j += 1;
        }
        proof {
            assert(pieces.take(pieces.len() as int) =~= pieces);
            assert(cell_spans(pl, l + 1) == cell_spans(pl, l as int) + line_spans(pieces, l as int, base, pieces.len() as int));
        }
        l += 1;
    }
    proof {
        let all = spans@.map_values(|x: TextSpan| text_span_view(x));
        lemma_cell_spans_in_order(pl, pl.len() as int);
        assert forall|a: int, b: int| 0 <= a < b < spans.len() implies (#[trigger] spans@[a]).end <= (
        #[trigger] spans@[b]).start by {
            assert(all[a] == text_span_view(spans@[a]));
            assert(all[b] == text_span_view(spans@[b]));
        }
        assert forall|k: int| 0 <= k < spans.len() implies (#[trigger] spans@[k]).start <= spans@[k].end <= text@.len()
            && text@.subrange(spans@[k].start as int, spans@[k].end as int) == spans@[k].text@ by {
            assert(all[k] == text_span_view(spans@[k]));
        }
    }
    (text, spans)
}

} // verus!
