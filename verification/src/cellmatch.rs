//! Matching characters to the cells of a table.
//!
//! A sweep down the page keeps the cells that span the current height
//! active; each character is matched to the active cells that contain its
//! center. The matches are then sorted by cell and character, and each slot
//! of the grid takes the run of matches of its cell.
use vstd::prelude::*;
use crate::table::{CellId, CellMatch};

verus! {

/// Position of a cell that is not active.
pub const INACTIVE: usize = usize::MAX;

/// The active cells of the sweep, in the order the swap-removing updates
/// leave them, with the position of each cell in that order.
pub struct ActiveCells {
    active: Vec<usize>,
    pos: Vec<usize>,
}

impl ActiveCells {
    /// The active cells, in order.
    pub closed spec fn view(&self) -> Seq<usize> {
        self.active@
    }

    /// How many cells the table has.
    pub closed spec fn cell_count(&self) -> nat {
        self.pos@.len()
    }

    /// The active cells are distinct cells of the table, and each cell's
    /// position names its place among them, or marks it inactive.
    pub closed spec fn wf(&self) -> bool {
        &&& self.pos@.len() < usize::MAX
        &&& self.active@.len() <= self.pos@.len()
        &&& forall|i: int| 0 <= i < self.active@.len() ==> #[trigger] self.active@[i] < self.pos@.len()
        &&& forall|i: int| 0 <= i < self.active@.len() ==> self.pos@[#[trigger] self.active@[i] as int] == i
        &&& forall|c: int|
            0 <= c < self.pos@.len() ==> (#[trigger] self.pos@[c] == INACTIVE || (self.pos@[c] < self.active@.len()
                && self.active@[self.pos@[c] as int] == c))
    }

    /// No cell of a table of `cell_count` cells is active.
    pub fn new(cell_count: usize) -> (r: Self)
        requires
            cell_count < usize::MAX,
        ensures
            r.wf(),
            r@ == Seq::<usize>::empty(),
            r.cell_count() == cell_count,
    {
        let mut pos: Vec<usize> = Vec::new();
        let mut k: usize = 0;
        while k < cell_count
            invariant
                k <= cell_count,
                pos@ == Seq::new(k as nat, |i: int| INACTIVE),
            decreases cell_count - k,
        {
            pos.push(INACTIVE);
            assert(pos@ =~= Seq::new((k + 1) as nat, |i: int| INACTIVE));
            k = k + 1;
        }
        ActiveCells { active: Vec::new(), pos }
    }

    /// The active cells, in order.
    pub fn cells(&self) -> (r: &Vec<usize>)
        ensures
            r@ == self@,
    {
        &self.active
    }

    /// Whether cell `cell` is active.
    pub fn is_active(&self, cell: usize) -> (r: bool)
        requires
            self.wf(),
            cell < self.cell_count(),
        ensures
            r == self@.contains(cell),
    {
        let p = self.pos[cell];
        if p != INACTIVE {
            assert(self.active@[p as int] == cell);
            assert(self.active@.contains(cell));
            true
        } else {
            proof {
                if self.active@.contains(cell) {
                    let i = choose|i: int| 0 <= i < self.active@.len() && self.active@[i] == cell;
                    assert(self.pos@[self.active@[i] as int] == i);
                    assert(self.pos@[cell as int] == p);
                    assert(false);
                }
            }
            false
        }
    }

    /// Activates cell `cell` at the end of the order.
    pub fn add(&mut self, cell: usize)
        requires
            old(self).wf(),
            cell < old(self).cell_count(),
            !old(self)@.contains(cell),
        ensures
            final(self).wf(),
            final(self)@ == old(self)@.push(cell),
            final(self).cell_count() == old(self).cell_count(),
    {
        let ghost a0 = self.active@;
        proof {
            assert forall|i: int| 0 <= i < a0.len() implies a0[i] != cell by {
                if a0[i] == cell {
                    assert(a0.contains(cell));
                }
            }
            if self.pos@[cell as int] != INACTIVE {
                assert(a0[self.pos@[cell as int] as int] == cell);
            }
            assert(a0.len() < self.pos@.len()) by {
                lemma_distinct_fit(a0, self.pos@, cell);
            }
        }
        let p = self.active.len();
        self.pos.set(cell, p);
        self.active.push(cell);
        proof {
            let a = self.active@;
            assert forall|c: int|
                0 <= c < self.pos@.len() implies (#[trigger] self.pos@[c] == INACTIVE || (self.pos@[c] < a.len()
                && a[self.pos@[c] as int] == c)) by {
                if c != cell as int && self.pos@[c] != INACTIVE {
                    assert(a[self.pos@[c] as int] == a0[self.pos@[c] as int]);
                }
            }
            assert forall|i: int| 0 <= i < a.len() implies self.pos@[#[trigger] a[i] as int] == i by {
                if i < a0.len() {
                    assert(a[i] == a0[i]);
                }
            }
        }
    }

    /// Deactivates cell `cell` if it is active: the last active cell takes
    /// its place.
    pub fn remove(&mut self, cell: usize)
        requires
            old(self).wf(),
            cell < old(self).cell_count(),
        ensures
            final(self).wf(),
            final(self).cell_count() == old(self).cell_count(),
            !old(self)@.contains(cell) ==> final(self)@ == old(self)@,
            forall|p: int|
                0 <= p < old(self)@.len() && old(self)@[p] == cell ==> final(self)@ == (if p == old(self)@.len() - 1 {
                    old(self)@.drop_last()
                } else {
                    old(self)@.update(p, old(self)@.last()).drop_last()
                }),
    {
        let ghost a0 = self.active@;
        let p = self.pos[cell];
        if p == INACTIVE {
            proof {
                assert forall|q: int| 0 <= q < a0.len() implies a0[q] != cell by {
                    assert(self.pos@[a0[q] as int] == q);
                    if a0[q] == cell {
                        assert(self.pos@[cell as int] == p);
                    }
                }
            }
            return;
        }
        assert(a0[p as int] == cell);
        proof {
            assert forall|q: int| 0 <= q < a0.len() && a0[q] == cell implies q == p by {
                assert(self.pos@[a0[q] as int] == q);
            }
        }
        let last = self.active.pop().unwrap();
        self.pos.set(cell, INACTIVE);
        if p < self.active.len() {
            self.active.set(p, last);
            self.pos.set(last, p);
        }
        proof {
            let a = self.active@;
            let n = a0.len();
            assert(last == a0[n - 1]);
            if p < n - 1 {
                assert(a =~= a0.update(p as int, a0.last()).drop_last());
            } else {
                assert(a =~= a0.drop_last());
            }
            assert forall|i: int| 0 <= i < a.len() implies #[trigger] a[i] < self.pos@.len() by {
                if i == p as int {
                    assert(a[i] == a0[n - 1]);
                } else {
                    assert(a[i] == a0[i]);
                }
            }
            assert forall|i: int| 0 <= i < a.len() implies self.pos@[#[trigger] a[i] as int] == i by {
                if i == p as int {
                    assert(a[i] == last);
                } else {
                    assert(a[i] == a0[i]);
                    assert(a0[i] != cell);
                    assert(a0[i] != last) by {
                        assert(self.pos@[a0[i] as int] == i);
                    }
                }
            }
            assert forall|c: int|
                0 <= c < self.pos@.len() implies (#[trigger] self.pos@[c] == INACTIVE || (self.pos@[c] < a.len()
                && a[self.pos@[c] as int] == c)) by {
                if c != cell as int && self.pos@[c] != INACTIVE {
                    if c == last as int {
                        assert(self.pos@[c] == p);
                    } else {
                        let q = self.pos@[c];
                        assert(q < n && a0[q as int] == c);
                        assert(q != p);
                        assert(q != n - 1) by {
                            if q == n - 1 {
                                assert(a0[n - 1] == last);
                            }
                        }
                        assert(a[q as int] == a0[q as int]);
                    }
                }
            }
        }
    }
}

proof fn lemma_distinct_fit(a: Seq<usize>, pos: Seq<usize>, free: usize)
    requires
        forall|i: int| 0 <= i < a.len() ==> #[trigger] a[i] < pos.len(),
        forall|i: int| 0 <= i < a.len() ==> pos[#[trigger] a[i] as int] == i,
        free < pos.len(),
        !a.contains(free),
    ensures
        a.len() < pos.len(),
{
    let ints = a.map_values(|x: usize| x as int);
    assert(ints.no_duplicates()) by {
        assert forall|i: int, j: int| 0 <= i < ints.len() && 0 <= j < ints.len() && i != j implies ints[i] != ints[j] by {
            assert(pos[a[i] as int] == i);
            assert(pos[a[j] as int] == j);
        }
    }
    ints.unique_seq_to_set();
    let c = free as int;
    vstd::set_lib::lemma_int_range(0, pos.len() as int);
    let range = vstd::set_lib::set_int_range(0, pos.len() as int);
    assert(ints.to_set().subset_of(range.remove(c))) by {
        assert forall|x: int| ints.to_set().contains(x) implies range.remove(c).contains(x) by {
            let i = choose|i: int| 0 <= i < ints.len() && ints[i] == x;
            assert(a[i] < pos.len());
            if x == c {
                assert(a[i] == c as usize);
                assert(a.contains(c as usize));
            }
        }
    }
    vstd::set_lib::lemma_len_subset(ints.to_set(), range.remove(c));
}

/// The order of matches: by cell, then by character.
pub open spec fn match_key(m: CellMatch) -> (int, int) {
    (m.cell.spec_index(), m.ch.0 as int)
}

/// `a` does not come after `b`.
pub open spec fn key_le(a: (int, int), b: (int, int)) -> bool {
    a.0 < b.0 || (a.0 == b.0 && a.1 <= b.1)
}

/// The matches are in order.
pub open spec fn matches_sorted(m: Seq<CellMatch>) -> bool {
    forall|a: int, b: int| 0 <= a < b < m.len() ==> key_le(match_key(#[trigger] m[a]), match_key(#[trigger] m[b]))
}

/// Every match names a cell.
pub open spec fn matches_wf(m: Seq<CellMatch>) -> bool {
    forall|k: int| 0 <= k < m.len() ==> (#[trigger] m[k]).cell.wf()
}

fn out_of_order(matches: &Vec<CellMatch>, j: usize) -> (r: bool)
    requires
        0 < j < matches.len(),
        matches_wf(matches@),
    ensures
        r == !key_le(match_key(matches@[j - 1]), match_key(matches@[j as int])),
{
    let a = matches[j - 1];
    let b = matches[j];
    let ka = a.cell.index();
    let kb = b.cell.index();
    ka > kb || (ka == kb && a.ch.0 > b.ch.0)
}

/// Sorts the matches by cell, then by character; an insertion sort.
pub fn sort_matches(matches: &mut Vec<CellMatch>)
    requires
        matches_wf(old(matches)@),
    ensures
        final(matches)@.to_multiset() == old(matches)@.to_multiset(),
        matches_sorted(final(matches)@),
        matches_wf(final(matches)@),
{
    broadcast use vstd::seq_lib::group_to_multiset_ensures;
    let n = matches.len();
    let ghost orig = matches@;
    let mut i: usize = 1;
    if n == 0 {
        return;
    }
    while i < n
        invariant
            1 <= i <= n == matches.len(),
            matches@.to_multiset() == orig.to_multiset(),
            matches_wf(matches@),
            matches_sorted(matches@.take(i as int)),
        decreases n - i,
    {
        let mut j: usize = i;
        proof {
            assert forall|a: int, b: int|
                0 <= a < b <= i && a != j && b != j implies key_le(match_key(#[trigger] matches@[a]), match_key(#[trigger] matches@[b])) by {
                assert(matches@.take(i as int)[a] == matches@[a]);
                assert(matches@.take(i as int)[b] == matches@[b]);
            }
        }
        while j > 0 && out_of_order(matches, j)
            invariant
                0 <= j <= i < n == matches.len(),
                matches@.to_multiset() == orig.to_multiset(),
                matches_wf(matches@),
                forall|a: int, b: int|
                    0 <= a < b <= i && a != j && b != j ==> key_le(match_key(#[trigger] matches@[a]), match_key(#[trigger] matches@[b])),
                forall|b: int| j < b <= i ==> key_le(match_key(matches@[j as int]), match_key(#[trigger] matches@[b])),
                forall|a: int, b: int|
                    0 <= a < j && j < b <= i ==> key_le(match_key(#[trigger] matches@[a]), match_key(#[trigger] matches@[b])),
            decreases j,
        {
            let a = matches[j - 1];
            let b = matches[j];
            let ghost before = matches@;
            matches.set(j - 1, b);
            matches.set(j, a);
            proof {
                broadcast use vstd::multiset::group_multiset_axioms;
                let mid = before.update(j - 1, b);
                assert(matches@ == mid.update(j as int, a));
                vstd::seq_lib::to_multiset_update(before, j - 1, b);
                vstd::seq_lib::to_multiset_update(mid, j as int, a);
                assert(mid[j as int] == b);
                assert(before[j - 1] == a);
                assert(before.to_multiset().count(a) > 0) by {
                    vstd::seq_lib::to_multiset_contains(before, a);
                }
                assert(matches@.to_multiset() =~= before.to_multiset());
            }
            j = j - 1;
        }
        proof {
            assert forall|a: int, b: int| 0 <= a < b < i + 1 implies key_le(
                match_key(#[trigger] matches@.take(i + 1)[a]),
                match_key(#[trigger] matches@.take(i + 1)[b]),
            ) by {
                assert(matches@.take(i + 1)[a] == matches@[a]);
                assert(matches@.take(i + 1)[b] == matches@[b]);
                if b == j as int && a < j - 1 {
                    assert(key_le(match_key(matches@[a]), match_key(matches@[j - 1])));
                }
            }
        }
        i = i + 1;
    }
    assert(matches@.take(n as int) =~= matches@);
}

/// The run of matches of cell `c`: `s..e`, with the matches of smaller
/// cells before it and those of larger cells after it.
pub open spec fn cell_run(m: Seq<CellMatch>, c: int, s: int, e: int) -> bool {
    &&& 0 <= s <= e <= m.len()
    &&& forall|k: int| s <= k < e ==> (#[trigger] m[k]).cell.spec_index() == c
    &&& forall|k: int| 0 <= k < s ==> (#[trigger] m[k]).cell.spec_index() < c
    &&& forall|k: int| e <= k < m.len() ==> (#[trigger] m[k]).cell.spec_index() > c
}

fn first_at_least(matches: &Vec<CellMatch>, c: usize, strict: bool) -> (r: usize)
    requires
        matches_sorted(matches@),
        matches_wf(matches@),
    ensures
        r <= matches.len(),
        forall|k: int| 0 <= k < r ==> if strict {
            (#[trigger] matches@[k]).cell.spec_index() <= c
        } else {
            (#[trigger] matches@[k]).cell.spec_index() < c
        },
        forall|k: int| r <= k < matches.len() ==> if strict {
            (#[trigger] matches@[k]).cell.spec_index() > c
        } else {
            (#[trigger] matches@[k]).cell.spec_index() >= c
        },
{
    let mut lo: usize = 0;
    let mut hi: usize = matches.len();
    while lo < hi
        invariant
            lo <= hi <= matches.len(),
            matches_sorted(matches@),
            matches_wf(matches@),
            forall|k: int| 0 <= k < lo ==> if strict {
                (#[trigger] matches@[k]).cell.spec_index() <= c
            } else {
                (#[trigger] matches@[k]).cell.spec_index() < c
            },
            forall|k: int| hi <= k < matches.len() ==> if strict {
                (#[trigger] matches@[k]).cell.spec_index() > c
            } else {
                (#[trigger] matches@[k]).cell.spec_index() >= c
            },
        decreases hi - lo,
    {
        let mid = lo + (hi - lo) / 2;
        let at = matches[mid].cell.index();
        let below = if strict {
            at <= c
        } else {
            at < c
        };
        if below {
            assert forall|k: int| 0 <= k < mid + 1 implies if strict {
                (#[trigger] matches@[k]).cell.spec_index() <= c
            } else {
                (#[trigger] matches@[k]).cell.spec_index() < c
            } by {
                if k < mid {
                    assert(key_le(match_key(matches@[k]), match_key(matches@[mid as int])));
                }
            }
            lo = mid + 1;
        } else {
            assert forall|k: int| mid <= k < matches.len() implies if strict {
                (#[trigger] matches@[k]).cell.spec_index() > c
            } else {
                (#[trigger] matches@[k]).cell.spec_index() >= c
            } by {
                if k > mid {
                    assert(key_le(match_key(matches@[mid as int]), match_key(matches@[k])));
                }
            }
            hi = mid;
        }
    }
    lo
}

/// For each slot of a grid, the run of sorted matches of its cell; empty
/// slots have none.
pub fn slot_runs(slots: &Vec<Option<CellId>>, matches: &Vec<CellMatch>) -> (r: Vec<Option<(usize, usize)>>)
    requires
        matches_sorted(matches@),
        matches_wf(matches@),
        forall|i: int| 0 <= i < slots.len() ==> (#[trigger] slots@[i] matches Some(id) ==> id.wf()),
    ensures
        r.len() == slots.len(),
        forall|i: int|
            0 <= i < slots.len() ==> match #[trigger] slots@[i] {
                None => r@[i] is None,
                Some(id) => r@[i] matches Some((s, e)) && cell_run(matches@, id.spec_index(), s as int, e as int),
            },
{
    let mut runs: Vec<Option<(usize, usize)>> = Vec::new();
    let mut i: usize = 0;
    while i < slots.len()
        invariant
            i <= slots.len(),
            runs.len() == i,
            matches_sorted(matches@),
            matches_wf(matches@),
            forall|q: int| 0 <= q < slots.len() ==> (#[trigger] slots@[q] matches Some(id) ==> id.wf()),
            forall|q: int|
                0 <= q < i ==> match #[trigger] slots@[q] {
                    None => runs@[q] is None,
                    Some(id) => runs@[q] matches Some((s, e)) && cell_run(matches@, id.spec_index(), s as int, e as int),
                },
        decreases slots.len() - i,
    {
        match slots[i] {
            None => runs.push(None),
            Some(id) => {
                let c = id.index();
                let s = first_at_least(matches, c, false);
                let e = first_at_least(matches, c, true);
                assert(s <= e) by {
                    if e < s {
                        assert(matches@[e as int].cell.spec_index() < c);
                    }
                }
                runs.push(Some((s, e)));
            },
        }
        i = i + 1;
    }
    runs
}

/// Activating a cell and then deactivating it restores the active cells.
pub proof fn lemma_remove_undoes_add(before: Seq<usize>, added: Seq<usize>, removed: Seq<usize>, cell: usize)
    requires
        !before.contains(cell),
        added == before.push(cell),
        forall|p: int|
            0 <= p < added.len() && added[p] == cell ==> removed == (if p == added.len() - 1 {
                added.drop_last()
            } else {
                added.update(p, added.last()).drop_last()
            }),
    ensures
        removed == before,
{
    assert(added[added.len() - 1] == cell);
    assert(added.drop_last() =~= before);
}

} // verus!
