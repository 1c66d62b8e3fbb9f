//! Frontier expansion of the best-first text-box grouping.
//!
//! A frontier entry stands for every pair of elements between two tree
//! nodes.  Expanding it either emits those pairs, when both nodes are
//! leaves, or splits the larger node and enqueues the children's frontier
//! entries.  The geometry (pair distances, node lower bounds, and which
//! dynamic-tree node holds a merged group) is supplied by the caller; the
//! choice of what to emit is decided here.
use vstd::prelude::*;
use crate::spatial::{
    BestEntry, DistKey, FrontierEntry, GroupHeapEntry, NodeShape, PairMode, PyId, TreeKind,
    group_other_entry, initial_entry, shape_is_leaf,
};

verus! {

/// Whether `e` is the pair entry of elements `x` and `y`, whose distance is
/// one that `dist` gives for `(x, y)`, with ids `id1`, `id2` and stored
/// elements `e1`, `e2`.
pub open spec fn pair_entry_ok<D: Fn(usize, usize) -> DistKey>(
    e: BestEntry,
    dist: D,
    x: usize,
    y: usize,
    id1: PyId,
    id2: PyId,
    e1: usize,
    e2: usize,
) -> bool {
    match e {
        BestEntry::Pair(p) => {
            &&& !p.skip_isany
            &&& p.id1 == id1
            &&& p.id2 == id2
            &&& p.elem1_idx == e1
            &&& p.elem2_idx == e2
            &&& call_ensures(dist, (x, y), p.dist)
        },
        _ => false,
    }
}

/// Both elements are still active.
pub open spec fn both_live(done: Seq<bool>, x: usize, y: usize) -> bool {
    !done[x as int] && !done[y as int]
}

/// The pairs of leaf elements `e[i]` with `e[k]`, `i < k < j`, both active.
pub open spec fn self_row(e: Seq<usize>, done: Seq<bool>, i: int, j: int) -> Seq<(usize, usize)>
    decreases j - i,
{
    if j <= i + 1 {
        Seq::empty()
    } else {
        self_row(e, done, i, j - 1) + if both_live(done, e[i], e[j - 1]) {
            seq![(e[i], e[j - 1])]
        } else {
            Seq::empty()
        }
    }
}

/// The pairs of a leaf with itself from its first `i` elements on the left.
pub open spec fn self_rows(e: Seq<usize>, done: Seq<bool>, i: int) -> Seq<(usize, usize)>
    decreases i,
{
    if i <= 0 {
        Seq::empty()
    } else {
        self_rows(e, done, i - 1) + self_row(e, done, i - 1, e.len() as int)
    }
}

/// The pairs of `a[i]` with the first `j` elements of `b`, both active.
pub open spec fn cross_row(a: Seq<usize>, b: Seq<usize>, done: Seq<bool>, i: int, j: int) -> Seq<
    (usize, usize),
>
    decreases j,
{
    if j <= 0 {
        Seq::empty()
    } else {
        cross_row(a, b, done, i, j - 1) + if both_live(done, a[i], b[j - 1]) {
            seq![(a[i], b[j - 1])]
        } else {
            Seq::empty()
        }
    }
}

/// The pairs of the first `i` elements of `a` with the elements of `b`.
pub open spec fn cross_rows(a: Seq<usize>, b: Seq<usize>, done: Seq<bool>, i: int) -> Seq<(usize, usize)>
    decreases i,
{
    if i <= 0 {
        Seq::empty()
    } else {
        cross_rows(a, b, done, i - 1) + cross_row(a, b, done, i - 1, b.len() as int)
    }
}

/// The pairs of the merged group `g` with the first `j` elements of `b`
/// that are active and are not `g` itself.
pub open spec fn group_row(g: usize, b: Seq<usize>, done: Seq<bool>, j: int) -> Seq<(usize, usize)>
    decreases j,
{
    if j <= 0 {
        Seq::empty()
    } else {
        group_row(g, b, done, j - 1) + if b[j - 1] != g && !done[b[j - 1] as int] {
            seq![(g, b[j - 1])]
        } else {
            Seq::empty()
        }
    }
}

/// The entries emitted for the pairs of a leaf with itself: the smaller id
/// first, with its element.
pub open spec fn self_pairs_ok<D: Fn(usize, usize) -> DistKey>(
    pushed: Seq<BestEntry>,
    pairs: Seq<(usize, usize)>,
    py: Seq<PyId>,
    dist: D,
) -> bool {
    &&& pushed.len() == pairs.len()
    &&& forall|k: int|
        0 <= k < pairs.len() ==> {
            let (x, y) = #[trigger] pairs[k];
            if py[x as int] < py[y as int] {
                pair_entry_ok(pushed[k], dist, x, y, py[x as int], py[y as int], x, y)
            } else {
                pair_entry_ok(pushed[k], dist, x, y, py[y as int], py[x as int], y, x)
            }
        }
}

/// The entries emitted for the pairs of two leaves: the smaller id first.
pub open spec fn cross_pairs_ok<D: Fn(usize, usize) -> DistKey>(
    pushed: Seq<BestEntry>,
    pairs: Seq<(usize, usize)>,
    py: Seq<PyId>,
    dist: D,
) -> bool {
    &&& pushed.len() == pairs.len()
    &&& forall|k: int|
        0 <= k < pairs.len() ==> {
            let (x, y) = #[trigger] pairs[k];
            if py[x as int] < py[y as int] {
                pair_entry_ok(pushed[k], dist, x, y, py[x as int], py[y as int], x, y)
            } else {
                pair_entry_ok(pushed[k], dist, x, y, py[y as int], py[x as int], y, x)
            }
        }
}

/// The entries emitted for the pairs of a merged group: the group's id first.
pub open spec fn group_pairs_ok<D: Fn(usize, usize) -> DistKey>(
    pushed: Seq<BestEntry>,
    pairs: Seq<(usize, usize)>,
    group_id: PyId,
    py: Seq<PyId>,
    dist: D,
) -> bool {
    &&& pushed.len() == pairs.len()
    &&& forall|k: int|
        0 <= k < pairs.len() ==> {
            let (x, y) = #[trigger] pairs[k];
            pair_entry_ok(pushed[k], dist, x, y, group_id, py[y as int], x, y)
        }
}

/// Every element of every node is an index of `py` and `done`, and every
/// child is a node.
pub open spec fn shapes_wf(nodes: Seq<NodeShape>, n_py: nat, n_done: nat) -> bool {
    forall|k: int|
        0 <= k < nodes.len() ==> {
            let n = #[trigger] nodes[k];
            &&& forall|m: int| 0 <= m < n.element_indices@.len() ==> n.element_indices@[m] < n_py && n.element_indices@[m] < n_done
            &&& n.left_child matches Some(c) ==> c < nodes.len()
            &&& n.right_child matches Some(c) ==> c < nodes.len()
        }
}

fn push_self_pairs<D: Fn(usize, usize) -> DistKey>(
    elems: &Vec<usize>,
    py_ids: &Vec<PyId>,
    done: &Vec<bool>,
    dist: &D,
    best_heap: &mut Vec<BestEntry>,
)
    requires
        forall|m: int| 0 <= m < elems@.len() ==> elems@[m] < py_ids@.len() && elems@[m] < done@.len(),
        forall|x: usize, y: usize| call_requires(*dist, (x, y)),
    ensures
        final(best_heap)@.len() >= old(best_heap)@.len(),
        final(best_heap)@.take(old(best_heap)@.len() as int) == old(best_heap)@,
        self_pairs_ok(
            final(best_heap)@.skip(old(best_heap)@.len() as int),
            self_rows(elems@, done@, elems@.len() as int),
            py_ids@,
            *dist,
        ),
{
    let ghost start = best_heap@;
    let n = elems.len();
    let mut i: usize = 0;
    while i < n
        invariant
            i <= n == elems@.len(),
            forall|m: int| 0 <= m < elems@.len() ==> elems@[m] < py_ids@.len() && elems@[m] < done@.len(),
            forall|x: usize, y: usize| call_requires(*dist, (x, y)),
            best_heap@.len() >= start.len(),
            best_heap@.take(start.len() as int) == start,
            self_pairs_ok(best_heap@.skip(start.len() as int), self_rows(elems@, done@, i as int), py_ids@, *dist),
        decreases n - i,
    {
        let mut j: usize = i + 1;
        while j < n
            invariant
                i < n == elems@.len(),
                i + 1 <= j <= n,
                forall|m: int| 0 <= m < elems@.len() ==> elems@[m] < py_ids@.len() && elems@[m] < done@.len(),
                forall|x: usize, y: usize| call_requires(*dist, (x, y)),
                best_heap@.len() >= start.len(),
                best_heap@.take(start.len() as int) == start,
                self_pairs_ok(
                    best_heap@.skip(start.len() as int),
                    self_rows(elems@, done@, i as int) + self_row(elems@, done@, i as int, j as int),
                    py_ids@,
                    *dist,
                ),
            decreases n - j,
        {
            let ei = elems[i];
            let ej = elems[j];
            let ghost before = best_heap@;
            let ghost pairs = self_rows(elems@, done@, i as int) + self_row(elems@, done@, i as int, j as int);
            if !done[ei] && !done[ej] {
                let d = dist(ei, ej);
                let (id1, id2, idx1, idx2) = if py_ids[ei] < py_ids[ej] {
                    (py_ids[ei], py_ids[ej], ei, ej)
                } else {
                    (py_ids[ej], py_ids[ei], ej, ei)
                };
                best_heap.push(
                    BestEntry::Pair(
                        GroupHeapEntry { skip_isany: false, dist: d, id1, id2, elem1_idx: idx1, elem2_idx: idx2 },
                    ),
                );
                proof {
                    assert(best_heap@.skip(start.len() as int) =~= before.skip(start.len() as int).push(
                        best_heap@.last(),
                    ));
                    assert(best_heap@.take(start.len() as int) =~= before.take(start.len() as int));
                    assert(pairs + seq![(ei, ej)] =~= self_rows(elems@, done@, i as int) + self_row(
                        elems@,
                        done@,
                        i as int,
                        j + 1,
                    ));
                    let p2 = pairs.push((ei, ej));
                    let pushed = best_heap@.skip(start.len() as int);
                    assert forall|k: int| 0 <= k < p2.len() implies {
                        let (x, y) = #[trigger] p2[k];
                        if py_ids@[x as int] < py_ids@[y as int] {
                            pair_entry_ok(pushed[k], *dist, x, y, py_ids@[x as int], py_ids@[y as int], x, y)
                        } else {
                            pair_entry_ok(pushed[k], *dist, x, y, py_ids@[y as int], py_ids@[x as int], y, x)
                        }
                    } by {
                        if k < pairs.len() {
                            assert(p2[k] == pairs[k]);
                        }
                    }
                }
            } else {
                assert(pairs =~= self_rows(elems@, done@, i as int) + self_row(elems@, done@, i as int, j + 1));
            }
            j += 1;
        }
        i += 1;
    }
}

fn push_cross_pairs<D: Fn(usize, usize) -> DistKey>(
    a: &Vec<usize>,
    b: &Vec<usize>,
    py_ids: &Vec<PyId>,
    done: &Vec<bool>,
    dist: &D,
    best_heap: &mut Vec<BestEntry>,
)
    requires
        forall|m: int| 0 <= m < a@.len() ==> a@[m] < py_ids@.len() && a@[m] < done@.len(),
        forall|m: int| 0 <= m < b@.len() ==> b@[m] < py_ids@.len() && b@[m] < done@.len(),
        forall|x: usize, y: usize| call_requires(*dist, (x, y)),
    ensures
        final(best_heap)@.len() >= old(best_heap)@.len(),
        final(best_heap)@.take(old(best_heap)@.len() as int) == old(best_heap)@,
        cross_pairs_ok(
            final(best_heap)@.skip(old(best_heap)@.len() as int),
            cross_rows(a@, b@, done@, a@.len() as int),
            py_ids@,
            *dist,
        ),
{
    let ghost start = best_heap@;
    let mut i: usize = 0;
    while i < a.len()
        invariant
            i <= a@.len(),
            forall|m: int| 0 <= m < a@.len() ==> a@[m] < py_ids@.len() && a@[m] < done@.len(),
            forall|m: int| 0 <= m < b@.len() ==> b@[m] < py_ids@.len() && b@[m] < done@.len(),
            forall|x: usize, y: usize| call_requires(*dist, (x, y)),
            best_heap@.len() >= start.len(),
            best_heap@.take(start.len() as int) == start,
            cross_pairs_ok(best_heap@.skip(start.len() as int), cross_rows(a@, b@, done@, i as int), py_ids@, *dist),
        decreases a@.len() - i,
    {
        let mut j: usize = 0;
        while j < b.len()
            invariant
                i < a@.len(),
                j <= b@.len(),
                forall|m: int| 0 <= m < a@.len() ==> a@[m] < py_ids@.len() && a@[m] < done@.len(),
                forall|m: int| 0 <= m < b@.len() ==> b@[m] < py_ids@.len() && b@[m] < done@.len(),
                forall|x: usize, y: usize| call_requires(*dist, (x, y)),
                best_heap@.len() >= start.len(),
                best_heap@.take(start.len() as int) == start,
                cross_pairs_ok(
                    best_heap@.skip(start.len() as int),
                    cross_rows(a@, b@, done@, i as int) + cross_row(a@, b@, done@, i as int, j as int),
                    py_ids@,
                    *dist,
                ),
            decreases b@.len() - j,
        {
            let ei = a[i];
            let ej = b[j];
            let ghost before = best_heap@;
            let ghost pairs = cross_rows(a@, b@, done@, i as int) + cross_row(a@, b@, done@, i as int, j as int);
            if !done[ei] && !done[ej] {
                let d = dist(ei, ej);
                let (id1, id2, idx1, idx2) = if py_ids[ei] < py_ids[ej] {
                    (py_ids[ei], py_ids[ej], ei, ej)
                } else {
                    (py_ids[ej], py_ids[ei], ej, ei)
                };
                best_heap.push(
                    BestEntry::Pair(
                        GroupHeapEntry { skip_isany: false, dist: d, id1, id2, elem1_idx: idx1, elem2_idx: idx2 },
                    ),
                );
                proof {
                    assert(best_heap@.skip(start.len() as int) =~= before.skip(start.len() as int).push(
                        best_heap@.last(),
                    ));
                    assert(best_heap@.take(start.len() as int) =~= before.take(start.len() as int));
                    assert(pairs + seq![(ei, ej)] =~= cross_rows(a@, b@, done@, i as int) + cross_row(
                        a@,
                        b@,
                        done@,
                        i as int,
                        j + 1,
                    ));
                    let p2 = pairs.push((ei, ej));
                    let pushed = best_heap@.skip(start.len() as int);
                    assert forall|k: int| 0 <= k < p2.len() implies {
                        let (x, y) = #[trigger] p2[k];
                        if py_ids@[x as int] < py_ids@[y as int] {
                            pair_entry_ok(pushed[k], *dist, x, y, py_ids@[x as int], py_ids@[y as int], x, y)
                        } else {
                            pair_entry_ok(pushed[k], *dist, x, y, py_ids@[y as int], py_ids@[x as int], y, x)
                        }
                    } by {
                        if k < pairs.len() {
                            assert(p2[k] == pairs[k]);
                        }
                    }
                }
            } else {
                assert(pairs =~= cross_rows(a@, b@, done@, i as int) + cross_row(a@, b@, done@, i as int, j + 1));
            }
            j += 1;
        }
        assert(cross_rows(a@, b@, done@, i as int) + cross_row(a@, b@, done@, i as int, b@.len() as int)
            == cross_rows(a@, b@, done@, i + 1));
        i += 1;
    }
}

fn push_group_pairs<D: Fn(usize, usize) -> DistKey>(
    group_id: PyId,
    group_idx: usize,
    b: &Vec<usize>,
    py_ids: &Vec<PyId>,
    done: &Vec<bool>,
    dist: &D,
    best_heap: &mut Vec<BestEntry>,
)
    requires
        forall|m: int| 0 <= m < b@.len() ==> b@[m] < py_ids@.len() && b@[m] < done@.len(),
        forall|x: usize, y: usize| call_requires(*dist, (x, y)),
    ensures
        final(best_heap)@.len() >= old(best_heap)@.len(),
        final(best_heap)@.take(old(best_heap)@.len() as int) == old(best_heap)@,
        group_pairs_ok(
            final(best_heap)@.skip(old(best_heap)@.len() as int),
            group_row(group_idx, b@, done@, b@.len() as int),
            group_id,
            py_ids@,
            *dist,
        ),
{
    let ghost start = best_heap@;
    let mut j: usize = 0;
    while j < b.len()
        invariant
            j <= b@.len(),
            forall|m: int| 0 <= m < b@.len() ==> b@[m] < py_ids@.len() && b@[m] < done@.len(),
            forall|x: usize, y: usize| call_requires(*dist, (x, y)),
            best_heap@.len() >= start.len(),
            best_heap@.take(start.len() as int) == start,
            group_pairs_ok(
                best_heap@.skip(start.len() as int),
                group_row(group_idx, b@, done@, j as int),
                group_id,
                py_ids@,
                *dist,
            ),
        decreases b@.len() - j,
    {
        let ej = b[j];
        let ghost before = best_heap@;
        let ghost pairs = group_row(group_idx, b@, done@, j as int);
        if ej != group_idx && !done[ej] {
            let d = dist(group_idx, ej);
            best_heap.push(
                BestEntry::Pair(
                    GroupHeapEntry {
                        skip_isany: false,
                        dist: d,
                        id1: group_id,
                        id2: py_ids[ej],
                        elem1_idx: group_idx,
                        elem2_idx: ej,
                    },
                ),
            );
            proof {
                assert(best_heap@.skip(start.len() as int) =~= before.skip(start.len() as int).push(
                    best_heap@.last(),
                ));
                assert(best_heap@.take(start.len() as int) =~= before.take(start.len() as int));
                assert(pairs + seq![(group_idx, ej)] =~= group_row(group_idx, b@, done@, j + 1));
                let p2 = pairs.push((group_idx, ej));
                let pushed = best_heap@.skip(start.len() as int);
                assert forall|k: int| 0 <= k < p2.len() implies {
                    let (x, y) = #[trigger] p2[k];
                    pair_entry_ok(pushed[k], *dist, x, y, group_id, py_ids@[y as int], x, y)
                } by {
                    if k < pairs.len() {
                        assert(p2[k] == pairs[k]);
                    }
                }
            }
        } else {
            assert(pairs =~= group_row(group_idx, b@, done@, j + 1));
        }
        j += 1;
    }
}

/// The frontier entry as a heap entry, when there is one.
pub open spec fn frontier_seq(e: Option<FrontierEntry>) -> Seq<BestEntry> {
    match e {
        Some(f) => seq![BestEntry::Frontier(f)],
        None => Seq::empty(),
    }
}

/// Which node of a frontier entry is split: the first when it is at least
/// as large and not a leaf, else the second; with the other node and
/// whether the first was chosen.
pub open spec fn split_choice(a: NodeShape, b: NodeShape, node_a: usize, node_b: usize) -> (usize, usize, bool) {
    if a.count >= b.count && !shape_is_leaf(a) {
        (node_a, node_b, true)
    } else {
        (node_b, node_a, false)
    }
}

/// The entries that expanding `entry` emits when both its nodes are leaves:
/// the pairs of a leaf with itself, the pairs of two leaves, or, for a
/// merged group, nothing when `contains` says the group's node does not
/// hold it or the group is merged already, else the group's pairs.
pub open spec fn leaf_expansion_ok<D: Fn(usize, usize) -> DistKey, C: Fn(usize, usize) -> bool>(
    entry: FrontierEntry,
    a: NodeShape,
    b: NodeShape,
    py: Seq<PyId>,
    done: Seq<bool>,
    dist: D,
    contains: C,
    pushed: Seq<BestEntry>,
) -> bool {
    match entry.mode {
        PairMode::InitialIJ => if entry.node_a == entry.node_b {
            self_pairs_ok(pushed, self_rows(a.element_indices@, done, a.element_indices@.len() as int), py, dist)
        } else {
            cross_pairs_ok(
                pushed,
                cross_rows(a.element_indices@, b.element_indices@, done, a.element_indices@.len() as int),
                py,
                dist,
            )
        },
        PairMode::GroupOther { group_id, group_idx } => exists|held: bool|
            #[trigger] call_ensures(contains, (entry.node_a, group_idx), held) && if held && !done[group_idx as int] {
                group_pairs_ok(
                    pushed,
                    group_row(group_idx, b.element_indices@, done, b.element_indices@.len() as int),
                    group_id,
                    py,
                    dist,
                )
            } else {
                pushed.len() == 0
            },
    }
}

/// The left child when it holds the group, else the right one.
pub open spec fn pick_child(held: bool, l: usize, r: usize) -> usize {
    if held {
        l
    } else {
        r
    }
}

/// The entries that expanding `entry` emits when a node is split into its
/// children `l` and `r` (with the other node `o`): for initial-tree pairs,
/// the entries of both children with themselves and with each other when a
/// node is paired with itself, else of each child with the other node; for
/// a merged group, the entry of the child that holds the group when the
/// group's node is split, else of the group's node with each child.
pub open spec fn split_expansion_ok<L: Fn(TreeKind, usize, usize) -> DistKey, C: Fn(usize, usize) -> bool>(
    entry: FrontierEntry,
    nodes: Seq<NodeShape>,
    lower_bound: L,
    contains: C,
    pushed: Seq<BestEntry>,
) -> bool {
    let (s, o, split_is_a) = split_choice(nodes[entry.node_a as int], nodes[entry.node_b as int], entry.node_a, entry.node_b);
    let t = entry.tree;
    match (nodes[s as int].left_child, nodes[s as int].right_child) {
        (Some(l), Some(r)) => match entry.mode {
            PairMode::InitialIJ => if s == o {
                exists|d1: DistKey, d2: DistKey, d3: DistKey|
                    #![trigger call_ensures(lower_bound, (t, l, l), d1), call_ensures(lower_bound, (t, r, r), d2), call_ensures(lower_bound, (t, l, r), d3)]
                    call_ensures(lower_bound, (t, l, l), d1) && call_ensures(lower_bound, (t, r, r), d2)
                        && call_ensures(lower_bound, (t, l, r), d3) && pushed == frontier_seq(
                        initial_entry(d1, nodes[l as int], nodes[l as int], l, l),
                    ) + frontier_seq(initial_entry(d2, nodes[r as int], nodes[r as int], r, r)) + frontier_seq(
                        initial_entry(d3, nodes[l as int], nodes[r as int], l, r),
                    )
            } else {
                exists|d1: DistKey, d2: DistKey|
                    #![trigger call_ensures(lower_bound, (t, l, o), d1), call_ensures(lower_bound, (t, r, o), d2)]
                    call_ensures(lower_bound, (t, l, o), d1) && call_ensures(lower_bound, (t, r, o), d2) && pushed
                        == frontier_seq(initial_entry(d1, nodes[l as int], nodes[o as int], l, o)) + frontier_seq(
                        initial_entry(d2, nodes[r as int], nodes[o as int], r, o),
                    )
            },
            PairMode::GroupOther { group_id, group_idx } => if split_is_a {
                exists|held: bool, d: DistKey|
                    #![trigger call_ensures(contains, (l, group_idx), held), call_ensures(lower_bound, (t, pick_child(held, l, r), o), d)]
                    call_ensures(contains, (l, group_idx), held) && call_ensures(
                        lower_bound,
                        (t, pick_child(held, l, r), o),
                        d,
                    ) && pushed == seq![
                        BestEntry::Frontier(
                            group_other_entry(d, group_id, group_idx, nodes[o as int], pick_child(held, l, r), o),
                        ),
                    ]
            } else {
                exists|d1: DistKey, d2: DistKey|
                    #![trigger call_ensures(lower_bound, (t, entry.node_a, l), d1), call_ensures(lower_bound, (t, entry.node_a, r), d2)]
                    call_ensures(lower_bound, (t, entry.node_a, l), d1) && call_ensures(
                        lower_bound,
                        (t, entry.node_a, r),
                        d2,
                    ) && pushed == seq![
                        BestEntry::Frontier(group_other_entry(d1, group_id, group_idx, nodes[l as int], entry.node_a, l)),
                        BestEntry::Frontier(group_other_entry(d2, group_id, group_idx, nodes[r as int], entry.node_a, r)),
                    ]
            },
        },
        _ => pushed.len() == 0,
    }
}

/// Expands a frontier entry of the single-heap best-first grouping: when
/// both nodes are leaves, emits their concrete pairs (skipping merged
/// elements); otherwise splits the larger node and emits the children's
/// frontier entries.  `dist` measures a pair of elements, `lower_bound`
/// bounds the pairs between two nodes of a tree, and `contains` says
/// whether a dynamic-tree node holds an element.  The new entries are
/// appended to `best_heap`.
pub fn expand_frontier_best<
    D: Fn(usize, usize) -> DistKey,
    L: Fn(TreeKind, usize, usize) -> DistKey,
    C: Fn(usize, usize) -> bool,
>(
    entry: FrontierEntry,
    initial_nodes: &Vec<NodeShape>,
    dynamic_nodes: &Vec<NodeShape>,
    py_ids: &Vec<PyId>,
    done: &Vec<bool>,
    dist: &D,
    lower_bound: &L,
    contains: &C,
    best_heap: &mut Vec<BestEntry>,
)
    requires
        shapes_wf(initial_nodes@, py_ids@.len(), done@.len()),
        shapes_wf(dynamic_nodes@, py_ids@.len(), done@.len()),
        entry.node_a < (if entry.tree == TreeKind::Initial { initial_nodes@ } else { dynamic_nodes@ }).len(),
        entry.node_b < (if entry.tree == TreeKind::Initial { initial_nodes@ } else { dynamic_nodes@ }).len(),
        entry.mode matches PairMode::GroupOther { group_idx, .. } ==> group_idx < done@.len(),
        forall|x: usize, y: usize| call_requires(*dist, (x, y)),
        forall|t: TreeKind, x: usize, y: usize| call_requires(*lower_bound, (t, x, y)),
        forall|x: usize, y: usize| call_requires(*contains, (x, y)),
    ensures
        ({
            let nodes = if entry.tree == TreeKind::Initial { initial_nodes@ } else { dynamic_nodes@ };
            let a = nodes[entry.node_a as int];
            let b = nodes[entry.node_b as int];
            let pushed = final(best_heap)@.skip(old(best_heap)@.len() as int);
            &&& final(best_heap)@.len() >= old(best_heap)@.len()
            &&& final(best_heap)@.take(old(best_heap)@.len() as int) == old(best_heap)@
            &&& shape_is_leaf(a) && shape_is_leaf(b) ==> leaf_expansion_ok(entry, a, b, py_ids@, done@, *dist, *contains, pushed)
            &&& !(shape_is_leaf(a) && shape_is_leaf(b)) ==> split_expansion_ok(entry, nodes, *lower_bound, *contains, pushed)
        }),
{
    let ghost start = best_heap@;
    let nodes = match entry.tree {
        TreeKind::Initial => initial_nodes,
        TreeKind::Dynamic => dynamic_nodes,
    };
    let node_a = &nodes[entry.node_a];
    let node_b = &nodes[entry.node_b];
    proof {
        assert(nodes@[entry.node_a as int] == *node_a);
    }
    if node_a.is_leaf() && node_b.is_leaf() {
        match entry.mode {
            PairMode::InitialIJ => {
                if entry.node_a == entry.node_b {
                    push_self_pairs(&node_a.element_indices, py_ids, done, dist, best_heap);
                } else {
                    push_cross_pairs(&node_a.element_indices, &node_b.element_indices, py_ids, done, dist, best_heap);
                }
            },
            PairMode::GroupOther { group_id, group_idx } => {
                let held = contains(entry.node_a, group_idx);
                if !held || done[group_idx] {
                    assert(best_heap@.skip(start.len() as int) =~= Seq::<BestEntry>::empty());
                    return;
                }
                push_group_pairs(group_id, group_idx, &node_b.element_indices, py_ids, done, dist, best_heap);
            },
        }
        return;
    }
    let (split_node_idx, other_node_idx, split_is_a) = if node_a.element_count() >= node_b.element_count()
        && !node_a.is_leaf() {
        (entry.node_a, entry.node_b, true)
    } else if !node_b.is_leaf() {
        (entry.node_b, entry.node_a, false)
    } else {
        (entry.node_b, entry.node_a, false)
    };
    let split_node = &nodes[split_node_idx];
    let other_node = &nodes[other_node_idx];
    let t = entry.tree;
    proof {
        assert((split_node_idx, other_node_idx, split_is_a) == split_choice(
            nodes@[entry.node_a as int],
            nodes@[entry.node_b as int],
            entry.node_a,
            entry.node_b,
        ));
        assert(nodes@[split_node_idx as int] == *split_node);
    }
    match (split_node.left_child, split_node.right_child) {
        (Some(left), Some(right)) => {
            let left_node = &nodes[left];
            let right_node = &nodes[right];
            match entry.mode {
                PairMode::InitialIJ => {
                    if split_node_idx == other_node_idx {
                        let d1 = lower_bound(t, left, left);
                        if let Some(e) = FrontierEntry::new_initial(d1, left_node, left_node, left, left) {
                            best_heap.push(BestEntry::Frontier(e));
                        }
                        let d2 = lower_bound(t, right, right);
                        if let Some(e) = FrontierEntry::new_initial(d2, right_node, right_node, right, right) {
                            best_heap.push(BestEntry::Frontier(e));
                        }
                        let d3 = lower_bound(t, left, right);
                        if let Some(e) = FrontierEntry::new_initial(d3, left_node, right_node, left, right) {
                            best_heap.push(BestEntry::Frontier(e));
                        }
                        proof {
                            let pushed = best_heap@.skip(start.len() as int);
                            assert(pushed =~= frontier_seq(initial_entry(d1, nodes@[left as int], nodes@[left as int], left, left))
                                + frontier_seq(initial_entry(d2, nodes@[right as int], nodes@[right as int], right, right))
                                + frontier_seq(initial_entry(d3, nodes@[left as int], nodes@[right as int], left, right)));
                            assert(best_heap@.take(start.len() as int) =~= start);
                            assert(call_ensures(*lower_bound, (t, left, left), d1));
                            assert(call_ensures(*lower_bound, (t, right, right), d2));
                            assert(call_ensures(*lower_bound, (t, left, right), d3));
                        }
                    } else {
                        let d1 = lower_bound(t, left, other_node_idx);
                        if let Some(e) = FrontierEntry::new_initial(d1, left_node, other_node, left, other_node_idx) {
                            best_heap.push(BestEntry::Frontier(e));
                        }
                        let d2 = lower_bound(t, right, other_node_idx);
                        if let Some(e) = FrontierEntry::new_initial(d2, right_node, other_node, right, other_node_idx) {
                            best_heap.push(BestEntry::Frontier(e));
                        }
                        proof {
                            let pushed = best_heap@.skip(start.len() as int);
                            assert(pushed =~= frontier_seq(initial_entry(d1, nodes@[left as int], nodes@[other_node_idx as int], left, other_node_idx))
                                + frontier_seq(initial_entry(d2, nodes@[right as int], nodes@[other_node_idx as int], right, other_node_idx)));
                            assert(best_heap@.take(start.len() as int) =~= start);
                            assert(call_ensures(*lower_bound, (t, left, other_node_idx), d1));
                            assert(call_ensures(*lower_bound, (t, right, other_node_idx), d2));
                        }
                    }
                },
                PairMode::GroupOther { group_id, group_idx } => {
                    if split_is_a {
                        let held = contains(left, group_idx);
                        let group_child = if held {
                            left
                        } else {
                            right
                        };
                        let d = lower_bound(t, group_child, other_node_idx);
                        let e = FrontierEntry::new_group_other(d, group_id, group_idx, other_node, group_child, other_node_idx);
                        best_heap.push(BestEntry::Frontier(e));
                        assert(best_heap@.skip(start.len() as int) =~= seq![BestEntry::Frontier(e)]);
                        assert(best_heap@.take(start.len() as int) =~= start);
                        assert(group_child == pick_child(held, left, right));
                        assert(call_ensures(*contains, (left, group_idx), held));
                        assert(call_ensures(*lower_bound, (t, pick_child(held, left, right), other_node_idx), d));
                    } else {
                        let d1 = lower_bound(t, entry.node_a, left);
                        let e1 = FrontierEntry::new_group_other(d1, group_id, group_idx, left_node, entry.node_a, left);
                        best_heap.push(BestEntry::Frontier(e1));
                        let d2 = lower_bound(t, entry.node_a, right);
                        let e2 = FrontierEntry::new_group_other(d2, group_id, group_idx, right_node, entry.node_a, right);
                        best_heap.push(BestEntry::Frontier(e2));
                        assert(best_heap@.skip(start.len() as int) =~= seq![BestEntry::Frontier(e1), BestEntry::Frontier(e2)]);
                        assert(best_heap@.take(start.len() as int) =~= start);
                        assert(call_ensures(*lower_bound, (t, entry.node_a, left), d1));
                        assert(call_ensures(*lower_bound, (t, entry.node_a, right), d2));
                    }
                },
            }
        },
        _ => {
            assert(best_heap@.skip(start.len() as int) =~= Seq::<BestEntry>::empty());
            assert(best_heap@.take(start.len() as int) =~= start);
        },
    }
}

/// The pair entries among `s`, in order.
pub open spec fn pairs_of(s: Seq<BestEntry>) -> Seq<GroupHeapEntry>
    decreases s.len(),
{
    if s.len() == 0 {
        Seq::empty()
    } else {
        pairs_of(s.drop_last()) + match s.last() {
            BestEntry::Pair(p) => seq![p],
            BestEntry::Frontier(_) => Seq::empty(),
        }
    }
}

/// The frontier entries among `s`, in order.
pub open spec fn frontiers_of(s: Seq<BestEntry>) -> Seq<FrontierEntry>
    decreases s.len(),
{
    if s.len() == 0 {
        Seq::empty()
    } else {
        frontiers_of(s.drop_last()) + match s.last() {
            BestEntry::Frontier(f) => seq![f],
            BestEntry::Pair(_) => Seq::empty(),
        }
    }
}

/// Expands a frontier entry of the two-heap best-first grouping, as
/// [`expand_frontier_best`] does, appending the concrete pairs to
/// `main_heap` and the new frontier entries to `frontier`.
pub fn expand_frontier<
    D: Fn(usize, usize) -> DistKey,
    L: Fn(TreeKind, usize, usize) -> DistKey,
    C: Fn(usize, usize) -> bool,
>(
    entry: FrontierEntry,
    initial_nodes: &Vec<NodeShape>,
    dynamic_nodes: &Vec<NodeShape>,
    py_ids: &Vec<PyId>,
    done: &Vec<bool>,
    dist: &D,
    lower_bound: &L,
    contains: &C,
    main_heap: &mut Vec<GroupHeapEntry>,
    frontier: &mut Vec<FrontierEntry>,
)
    requires
        shapes_wf(initial_nodes@, py_ids@.len(), done@.len()),
        shapes_wf(dynamic_nodes@, py_ids@.len(), done@.len()),
        entry.node_a < (if entry.tree == TreeKind::Initial { initial_nodes@ } else { dynamic_nodes@ }).len(),
        entry.node_b < (if entry.tree == TreeKind::Initial { initial_nodes@ } else { dynamic_nodes@ }).len(),
        entry.mode matches PairMode::GroupOther { group_idx, .. } ==> group_idx < done@.len(),
        forall|x: usize, y: usize| call_requires(*dist, (x, y)),
        forall|t: TreeKind, x: usize, y: usize| call_requires(*lower_bound, (t, x, y)),
        forall|x: usize, y: usize| call_requires(*contains, (x, y)),
    ensures
        exists|pushed: Seq<BestEntry>|
            {
                let nodes = if entry.tree == TreeKind::Initial { initial_nodes@ } else { dynamic_nodes@ };
                let a = nodes[entry.node_a as int];
                let b = nodes[entry.node_b as int];
                &&& shape_is_leaf(a) && shape_is_leaf(b) ==> leaf_expansion_ok(entry, a, b, py_ids@, done@, *dist, *contains, pushed)
                &&& !(shape_is_leaf(a) && shape_is_leaf(b)) ==> split_expansion_ok(entry, nodes, *lower_bound, *contains, pushed)
                &&& final(main_heap)@ == old(main_heap)@ + #[trigger] pairs_of(pushed)
                &&& final(frontier)@ == old(frontier)@ + frontiers_of(pushed)
            },
{
    let mut scratch: Vec<BestEntry> = Vec::new();
    expand_frontier_best(entry, initial_nodes, dynamic_nodes, py_ids, done, dist, lower_bound, contains, &mut scratch);
    assert(scratch@.take(0) =~= Seq::<BestEntry>::empty());
    assert(scratch@.skip(0) =~= scratch@);
    let ghost main0 = main_heap@;
    let ghost front0 = frontier@;
    assert(main_heap@ =~= main0 + pairs_of(scratch@.take(0)));
    assert(frontier@ =~= front0 + frontiers_of(scratch@.take(0)));
    let mut k: usize = 0;
    while k < scratch.len()
        invariant
            k <= scratch.len(),
            main_heap@ == main0 + pairs_of(scratch@.take(k as int)),
            frontier@ == front0 + frontiers_of(scratch@.take(k as int)),
        decreases scratch.len() - k,
    {
        let e = scratch[k];
        assert(scratch@.take(k + 1).drop_last() =~= scratch@.take(k as int));
        assert(scratch@.take(k + 1).last() == e);
        match e {
            BestEntry::Pair(p) => {
                main_heap.push(p);
                assert(main_heap@ =~= main0 + pairs_of(scratch@.take(k + 1)));
                assert(frontier@ =~= front0 + frontiers_of(scratch@.take(k + 1)));
            },
            BestEntry::Frontier(f) => {
                frontier.push(f);
                assert(main_heap@ =~= main0 + pairs_of(scratch@.take(k + 1)));
                assert(frontier@ =~= front0 + frontiers_of(scratch@.take(k + 1)));
            },
        }
        k = k + 1;
    }
    assert(scratch@.take(scratch.len() as int) =~= scratch@);
    assert(main_heap@ == main0 + pairs_of(scratch@));
}

/// What the grouping loop does with a pair popped from the heap.
#[derive(Clone, Debug)]
pub enum PairDecision {
    /// An element of the pair is merged already: drop the pair.
    Skip,
    /// Another active element lies between the two: push the pair back,
    /// marked so that it sorts after every pair without one between.
    Requeue(GroupHeapEntry),
    /// Merge the two elements.
    Merge,
}

/// Decides what to do with the popped pair `best`: drop it when an element
/// is merged already; when it was not checked yet, ask `has_between`
/// whether another active element lies in the pair's union box, and push it
/// back marked if so; otherwise merge.
pub fn decide_pair<F: Fn(usize, usize) -> bool>(best: GroupHeapEntry, done: &Vec<bool>, has_between: &F) -> (r:
    PairDecision)
    requires
        best.elem1_idx < done@.len(),
        best.elem2_idx < done@.len(),
        call_requires(*has_between, (best.elem1_idx, best.elem2_idx)),
    ensures
        done@[best.elem1_idx as int] || done@[best.elem2_idx as int] ==> r is Skip,
        !(done@[best.elem1_idx as int] || done@[best.elem2_idx as int]) && best.skip_isany ==> r is Merge,
        !(done@[best.elem1_idx as int] || done@[best.elem2_idx as int]) && !best.skip_isany ==> exists|between: bool|
            #[trigger] call_ensures(*has_between, (best.elem1_idx, best.elem2_idx), between) && if between {
                r == PairDecision::Requeue(GroupHeapEntry { skip_isany: true, ..best })
            } else {
                r is Merge
            },
{
    if done[best.elem1_idx] || done[best.elem2_idx] {
        return PairDecision::Skip;
    }
    if !best.skip_isany {
        let between = has_between(best.elem1_idx, best.elem2_idx);
        if between {
            let mut marked = best;
            marked.skip_isany = true;
            return PairDecision::Requeue(marked);
        }
    }
    PairDecision::Merge
}

/// Records the merge of elements `e1` and `e2` into a new group: both are
/// marked merged, and the group gets the next element index (returned
/// first), the next id (returned second), and an active entry.
pub fn record_merge(done: &mut Vec<bool>, py_ids: &mut Vec<PyId>, next_py_id: &mut PyId, e1: usize, e2: usize) -> (r: (
    usize,
    PyId,
))
    requires
        e1 < old(done)@.len(),
        e2 < old(done)@.len(),
        old(done)@.len() == old(py_ids)@.len(),
        old(done)@.len() < usize::MAX,
        *old(next_py_id) < u64::MAX,
    ensures
        r.0 == old(done)@.len(),
        r.1 == *old(next_py_id),
        *final(next_py_id) == *old(next_py_id) + 1,
        final(done)@ == old(done)@.update(e1 as int, true).update(e2 as int, true).push(false),
        final(py_ids)@ == old(py_ids)@.push(*old(next_py_id)),
{
    done.set(e1, true);
    done.set(e2, true);
    let new_idx = done.len();
    let new_py_id = *next_py_id;
    *next_py_id = *next_py_id + 1;
    py_ids.push(new_py_id);
    done.push(false);
    (new_idx, new_py_id)
}

/// A candidate pair of elements `e1` and `e2`, not yet checked for elements
/// between them, with their ids and the distance `dist` gives.
pub open spec fn candidate_ok<D: Fn(usize, usize) -> DistKey>(
    p: GroupHeapEntry,
    dist: D,
    e1: usize,
    e2: usize,
    py: Seq<PyId>,
) -> bool {
    &&& !p.skip_isany
    &&& p.id1 == py[e1 as int]
    &&& p.id2 == py[e2 as int]
    &&& p.elem1_idx == e1
    &&& p.elem2_idx == e2
    &&& call_ensures(dist, (e1, e2), p.dist)
}

/// The pairs `(i, j)` with `i < j < n` of the first `rows` rows, row by row.
pub open spec fn all_pairs(n: int, rows: int) -> Seq<(usize, usize)>
    decreases rows,
{
    if rows <= 0 {
        Seq::empty()
    } else {
        all_pairs(n, rows - 1) + Seq::new(
            if n - rows > 0 { (n - rows) as nat } else { 0 },
            |k: int| ((rows - 1) as usize, (rows + k) as usize),
        )
    }
}

/// The entries `r` are candidates for the pairs `pairs`, one each, in order.
pub open spec fn candidates_for<D: Fn(usize, usize) -> DistKey>(
    r: Seq<GroupHeapEntry>,
    pairs: Seq<(usize, usize)>,
    dist: D,
    py: Seq<PyId>,
) -> bool {
    &&& r.len() == pairs.len()
    &&& forall|k: int| 0 <= k < pairs.len() ==> candidate_ok(#[trigger] r[k], dist, pairs[k].0, pairs[k].1, py)
}

/// The candidate pairs at the start of the all-pairs grouping: every pair
/// of elements, the earlier one first.
pub fn initial_candidates<D: Fn(usize, usize) -> DistKey>(py_ids: &Vec<PyId>, dist: &D) -> (r: Vec<
    GroupHeapEntry,
>)
    requires
        forall|x: usize, y: usize| call_requires(*dist, (x, y)),
    ensures
        candidates_for(r@, all_pairs(py_ids.len() as int, py_ids.len() as int), *dist, py_ids@),
{
    let n = py_ids.len();
    let mut out: Vec<GroupHeapEntry> = Vec::new();
    let mut i: usize = 0;
    while i < n
        invariant
            i <= n == py_ids.len(),
            forall|x: usize, y: usize| call_requires(*dist, (x, y)),
            candidates_for(out@, all_pairs(n as int, i as int), *dist, py_ids@),
        decreases n - i,
    {
        let ghost before = out@;
        let ghost prev = all_pairs(n as int, i as int);
        let ghost row = Seq::new((n - i - 1) as nat, |k: int| (i as usize, (i + 1 + k) as usize));
        assert(all_pairs(n as int, i + 1) =~= prev + row);
        let mut j: usize = i + 1;
        while j < n
            invariant
                i < n == py_ids.len(),
                i + 1 <= j <= n,
                forall|x: usize, y: usize| call_requires(*dist, (x, y)),
                out@.len() == before.len() + (j - i - 1),
                candidates_for(before, prev, *dist, py_ids@),
                forall|k: int| 0 <= k < before.len() ==> out@[k] == before[k],
                forall|k: int|
                    0 <= k < j - i - 1 ==> candidate_ok(#[trigger] out@[before.len() + k], *dist, i, (i + 1 + k) as usize, py_ids@),
            decreases n - j,
        {
            let d = dist(i, j);
            out.push(GroupHeapEntry {
                skip_isany: false,
                dist: d,
                id1: py_ids[i],
                id2: py_ids[j],
                elem1_idx: i,
                elem2_idx: j,
            });
            j += 1;
        }
        assert forall|k: int| 0 <= k < prev.len() + row.len() implies candidate_ok(
            #[trigger] out@[k],
            *dist,
            (prev + row)[k].0,
            (prev + row)[k].1,
            py_ids@,
        ) by {
            if k < prev.len() {
                assert(out@[k] == before[k]);
                assert(candidate_ok(before[k], *dist, prev[k].0, prev[k].1, py_ids@));
                assert((prev + row)[k] == prev[k]);
            } else {
                let m = k - prev.len();
                assert(out@[k] == out@[before.len() + m]);
                assert(candidate_ok(out@[before.len() + m], *dist, i, (i + 1 + m) as usize, py_ids@));
                assert((prev + row)[k] == row[m]);
            }
        }
        assert(out@.len() == (prev + row).len());
        i += 1;
    }
    out
}

/// The candidate pairs of the merged group `new_idx` with every earlier
/// element still unmerged, the group first.
pub fn group_candidates<D: Fn(usize, usize) -> DistKey>(
    new_idx: usize,
    done: &Vec<bool>,
    py_ids: &Vec<PyId>,
    dist: &D,
) -> (r: Vec<GroupHeapEntry>)
    requires
        new_idx < py_ids.len(),
        new_idx <= done.len(),
        forall|x: usize, y: usize| call_requires(*dist, (x, y)),
    ensures
        candidates_for(
            r@,
            group_row(new_idx, Seq::new(new_idx as nat, |i: int| i as usize), done@, new_idx as int),
            *dist,
            py_ids@,
        ),
{
    let ghost b = Seq::new(new_idx as nat, |i: int| i as usize);
    let mut out: Vec<GroupHeapEntry> = Vec::new();
    let mut other: usize = 0;
    while other < new_idx
        invariant
            other <= new_idx < py_ids.len(),
            new_idx <= done.len(),
            b == Seq::new(new_idx as nat, |i: int| i as usize),
            forall|x: usize, y: usize| call_requires(*dist, (x, y)),
            candidates_for(out@, group_row(new_idx, b, done@, other as int), *dist, py_ids@),
        decreases new_idx - other,
    {
        let ghost before = out@;
        assert(b[other as int] == other);
        if !done[other] {
            let d = dist(new_idx, other);
            out.push(GroupHeapEntry {
                skip_isany: false,
                dist: d,
                id1: py_ids[new_idx],
                id2: py_ids[other],
                elem1_idx: new_idx,
                elem2_idx: other,
            });
            assert forall|k: int| 0 <= k < out@.len() implies candidate_ok(
                #[trigger] out@[k],
                *dist,
                group_row(new_idx, b, done@, other + 1)[k].0,
                group_row(new_idx, b, done@, other + 1)[k].1,
                py_ids@,
            ) by {
                if k < before.len() {
                    assert(out@[k] == before[k]);
                }
            }
        }
        other += 1;
    }
    out
}

} // verus!
