//! Priority keys of the hierarchical text-box grouping.
//!
//! Candidate pairs and frontier lower bounds are ordered by
//! `(skip_isany, dist, id1, id2)`, smallest first; the heaps are max-heaps,
//! so the priority comparison is the reverse of the key order.
use vstd::prelude::*;

verus! {

/// Monotonically increasing ID assigned in parse order.
pub type PyId = u64;

/// Distance key for total ordering of distances.
pub type DistKey = i64;

/// How the ids of a pair are oriented.
#[derive(Clone, Copy, Debug, PartialEq, Eq, Structural)]
pub enum PairMode {
    /// Initial elements: pairs are (i, j) where i < j by py_id.
    InitialIJ,
    /// Merged group: pairs are (group_id, other_id) in that order.
    GroupOther { group_id: PyId, group_idx: usize },
}

/// Which tree a frontier entry belongs to.
#[derive(Clone, Copy, Debug, PartialEq, Eq, Structural)]
pub enum TreeKind {
    Initial,
    Dynamic,
}

/// A candidate pair of the grouping heap.
#[derive(Clone, Copy, Debug)]
pub struct GroupHeapEntry {
    pub skip_isany: bool,
    pub dist: DistKey,
    pub id1: PyId,
    pub id2: PyId,
    pub elem1_idx: usize,
    pub elem2_idx: usize,
}

/// A lower bound for the pairs between two tree nodes.
#[derive(Clone, Copy, Debug)]
pub struct FrontierEntry {
    pub lb_dist: DistKey,
    pub lb_id1: PyId,
    pub lb_id2: PyId,
    pub node_a: usize,
    pub node_b: usize,
    pub mode: PairMode,
    pub tree: TreeKind,
}

/// Either kind of entry in the single-heap algorithm.
#[derive(Clone, Copy, Debug)]
pub enum BestEntry {
    Frontier(FrontierEntry),
    Pair(GroupHeapEntry),
}

/// A key as plain integers, `false < true` for the skip flag.
pub type KeyParts = (bool, DistKey, PyId, PyId, u8);

pub open spec fn bool_rank(b: bool) -> int {
    if b {
        1
    } else {
        0
    }
}

/// Strict lexicographic order on keys.
pub open spec fn key_less(a: KeyParts, b: KeyParts) -> bool {
    ||| bool_rank(a.0) < bool_rank(b.0)
    ||| a.0 == b.0 && a.1 < b.1
    ||| a.0 == b.0 && a.1 == b.1 && a.2 < b.2
    ||| a.0 == b.0 && a.1 == b.1 && a.2 == b.2 && a.3 < b.3
    ||| a.0 == b.0 && a.1 == b.1 && a.2 == b.2 && a.3 == b.3 && a.4 < b.4
}

pub open spec fn spec_key_parts(entry: BestEntry) -> KeyParts {
    match entry {
        BestEntry::Frontier(f) => (false, f.lb_dist, f.lb_id1, f.lb_id2, 0u8),
        BestEntry::Pair(p) => (p.skip_isany, p.dist, p.id1, p.id2, 1u8),
    }
}

pub open spec fn pair_key(p: GroupHeapEntry) -> KeyParts {
    (p.skip_isany, p.dist, p.id1, p.id2, 0u8)
}

pub open spec fn frontier_key(f: FrontierEntry) -> KeyParts {
    (false, f.lb_dist, f.lb_id1, f.lb_id2, 0u8)
}

/// The heap priority of entries with keys `a` and `b`: the smaller key is
/// the greater priority, so it pops first from a max-heap.
pub open spec fn priority_of(a: KeyParts, b: KeyParts) -> std::cmp::Ordering {
    if key_less(b, a) {
        std::cmp::Ordering::Less
    } else if key_less(a, b) {
        std::cmp::Ordering::Greater
    } else {
        std::cmp::Ordering::Equal
    }
}

fn key_lt(a: KeyParts, b: KeyParts) -> (r: bool)
    ensures
        r == key_less(a, b),
{
    (!a.0 && b.0) || (a.0 == b.0 && (a.1 < b.1 || (a.1 == b.1 && (a.2 < b.2 || (a.2 == b.2 && (
    a.3 < b.3 || (a.3 == b.3 && a.4 < b.4)))))))
}

fn priority(a: KeyParts, b: KeyParts) -> (r: std::cmp::Ordering)
    ensures
        r == priority_of(a, b),
{
    if key_lt(b, a) {
        std::cmp::Ordering::Less
    } else if key_lt(a, b) {
        std::cmp::Ordering::Greater
    } else {
        std::cmp::Ordering::Equal
    }
}

impl GroupHeapEntry {
    /// The ordering key `(skip_isany, dist, id1, id2)`.
    pub fn key(&self) -> (r: KeyParts)
        ensures
            r == pair_key(*self),
    {
        (self.skip_isany, self.dist, self.id1, self.id2, 0)
    }

    /// The max-heap priority of `self` against `other`: the reverse of the
    /// key order, so that the smallest key pops first.
    pub fn heap_priority(&self, other: &Self) -> (r: std::cmp::Ordering)
        ensures
            r == priority_of(pair_key(*self), pair_key(*other)),
    {
        priority(self.key(), other.key())
    }

    /// Whether two entries have the same key.
    pub fn same_key(&self, other: &Self) -> (r: bool)
        ensures
            r == (pair_key(*self) == pair_key(*other)),
    {
        self.skip_isany == other.skip_isany && self.dist == other.dist && self.id1 == other.id1
            && self.id2 == other.id2
    }
}

impl FrontierEntry {
    /// The ordering key `(false, lb_dist, lb_id1, lb_id2)`.
    pub fn key(&self) -> (r: KeyParts)
        ensures
            r == frontier_key(*self),
    {
        (false, self.lb_dist, self.lb_id1, self.lb_id2, 0)
    }

    /// The max-heap priority of `self` against `other`.
    pub fn heap_priority(&self, other: &Self) -> (r: std::cmp::Ordering)
        ensures
            r == priority_of(frontier_key(*self), frontier_key(*other)),
    {
        priority(self.key(), other.key())
    }

    /// Whether two entries have the same key.
    pub fn same_key(&self, other: &Self) -> (r: bool)
        ensures
            r == (frontier_key(*self) == frontier_key(*other)),
    {
        self.lb_dist == other.lb_dist && self.lb_id1 == other.lb_id1 && self.lb_id2 == other.lb_id2
    }

    /// Whether this frontier entry could beat the main heap entry `main`
    /// (tie-safe: it also wins a tie on `(dist, id1, id2)`).
    pub fn could_beat(&self, main: &GroupHeapEntry) -> (r: bool)
        ensures
            r == (main.skip_isany || self.lb_dist < main.dist || (self.lb_dist == main.dist && (
            self.lb_id1 < main.id1 || (self.lb_id1 == main.id1 && self.lb_id2 <= main.id2)))),
    {
        if main.skip_isany {
            return true;
        }
        if self.lb_dist < main.dist {
            true
        } else if self.lb_dist > main.dist {
            false
        } else {
            self.lb_id1 < main.id1 || (self.lb_id1 == main.id1 && self.lb_id2 <= main.id2)
        }
    }
}

impl BestEntry {
    /// The ordering key; frontier entries sort before pairs on equal keys.
    pub fn key_parts(&self) -> (r: KeyParts)
        ensures
            r == spec_key_parts(*self),
    {
        match self {
            BestEntry::Frontier(entry) => (false, entry.lb_dist, entry.lb_id1, entry.lb_id2, 0),
            BestEntry::Pair(entry) => (entry.skip_isany, entry.dist, entry.id1, entry.id2, 1),
        }
    }

    /// The max-heap priority of `self` against `other`.
    pub fn heap_priority(&self, other: &Self) -> (r: std::cmp::Ordering)
        ensures
            r == priority_of(spec_key_parts(*self), spec_key_parts(*other)),
    {
        priority(self.key_parts(), other.key_parts())
    }

    /// Whether two entries have the same key.
    pub fn same_key(&self, other: &Self) -> (r: bool)
        ensures
            r == (spec_key_parts(*self) == spec_key_parts(*other)),
    {
        let a = self.key_parts();
        let b = other.key_parts();
        a.0 == b.0 && a.1 == b.1 && a.2 == b.2 && a.3 == b.3 && a.4 == b.4
    }
}

/// A frontier entry that cannot beat the main heap's top pair has a strictly
/// larger key in the single heap, so the pair is popped first and deferring
/// the frontier entry loses nothing.
pub proof fn lemma_could_not_beat_pops_later(f: FrontierEntry, main: GroupHeapEntry)
    requires
        !(main.skip_isany || f.lb_dist < main.dist || (f.lb_dist == main.dist && (f.lb_id1
            < main.id1 || (f.lb_id1 == main.id1 && f.lb_id2 <= main.id2)))),
    ensures
        key_less(spec_key_parts(BestEntry::Pair(main)), spec_key_parts(BestEntry::Frontier(f))),
        priority_of(
            spec_key_parts(BestEntry::Pair(main)),
            spec_key_parts(BestEntry::Frontier(f)),
        ) == std::cmp::Ordering::Greater,
{
}

/// The priority order is the reverse of the key order and is antisymmetric:
/// swapping the entries reverses the answer.
pub proof fn lemma_priority_antisymmetric(a: KeyParts, b: KeyParts)
    ensures
        priority_of(a, b) == std::cmp::Ordering::Less <==> priority_of(b, a)
            == std::cmp::Ordering::Greater,
        priority_of(a, b) == std::cmp::Ordering::Equal <==> a == b,
{
}

/// The key order is transitive.
pub proof fn lemma_key_less_transitive(a: KeyParts, b: KeyParts, c: KeyParts)
    requires
        key_less(a, b),
        key_less(b, c),
    ensures
        key_less(a, c),
{
}

/// The two smallest of the ids `ids` (with repeats), smallest first: two
/// distinct positions hold them and every other position holds an id no
/// smaller than the second.
pub open spec fn two_smallest(ids: Seq<PyId>, r: (PyId, PyId)) -> bool {
    &&& r.0 <= r.1
    &&& exists|i: int, j: int|
        0 <= i < ids.len() && 0 <= j < ids.len() && i != j && ids[i] == r.0 && ids[j] == r.1 && forall|k: int|
            0 <= k < ids.len() && k != i && k != j ==> r.1 <= #[trigger] ids[k]
}

/// The two smallest ids of two merged nodes, given each node's smallest and
/// second smallest id.
pub fn merge_min_ids(a_min: PyId, a_second: PyId, b_min: PyId, b_second: PyId) -> (r: (PyId, PyId))
    ensures
        two_smallest(seq![a_min, a_second, b_min, b_second], r),
{
    let ghost ids = seq![a_min, a_second, b_min, b_second];
    let ghost i1: int = if a_min <= a_second { 0 } else { 1 };
    let ghost h1: int = if a_min <= a_second { 1 } else { 0 };
    let ghost i2: int = if b_min <= b_second { 2 } else { 3 };
    let ghost h2: int = if b_min <= b_second { 3 } else { 2 };
    let (lo1, hi1) = if a_min <= a_second {
        (a_min, a_second)
    } else {
        (a_second, a_min)
    };
    let (lo2, hi2) = if b_min <= b_second {
        (b_min, b_second)
    } else {
        (b_second, b_min)
    };
    if lo1 <= lo2 {
        if hi1 <= lo2 {
            assert(ids[i1] == lo1 && ids[h1] == hi1);
            (lo1, hi1)
        } else {
            assert(ids[i1] == lo1 && ids[i2] == lo2);
            (lo1, lo2)
        }
    } else {
        if lo1 <= hi2 {
            assert(ids[i2] == lo2 && ids[i1] == lo1);
            (lo2, lo1)
        } else {
            assert(ids[i2] == lo2 && ids[h2] == hi2);
            (lo2, hi2)
        }
    }
}

/// The integer shape of a spatial-tree node: the number of elements below
/// it, the elements of a leaf, its children and its two smallest ids.
#[derive(Clone, Debug)]
pub struct NodeShape {
    pub count: usize,
    pub element_indices: Vec<usize>,
    pub left_child: Option<usize>,
    pub right_child: Option<usize>,
    pub min_py_id: PyId,
    pub second_min_py_id: PyId,
}

pub open spec fn shape_is_leaf(n: NodeShape) -> bool {
    n.left_child is None
}

impl NodeShape {
    /// Whether the node has no children.
    pub fn is_leaf(&self) -> (r: bool)
        ensures
            r == shape_is_leaf(*self),
    {
        self.left_child.is_none()
    }

    /// Number of elements in this subtree.
    pub fn element_count(&self) -> (r: usize)
        ensures
            r == self.count,
    {
        self.count
    }
}

/// The frontier entry between initial-tree nodes `node_a` and `node_b`: a
/// node paired with itself needs two elements and is bounded by its two
/// smallest ids; two nodes are bounded by their smallest ids, smaller first.
pub open spec fn initial_entry(
    lb_dist: DistKey,
    a: NodeShape,
    b: NodeShape,
    node_a: usize,
    node_b: usize,
) -> Option<FrontierEntry> {
    if node_a == node_b {
        if a.second_min_py_id == u64::MAX {
            None
        } else {
            Some(
                FrontierEntry {
                    lb_dist,
                    lb_id1: a.min_py_id,
                    lb_id2: a.second_min_py_id,
                    node_a,
                    node_b,
                    mode: PairMode::InitialIJ,
                    tree: TreeKind::Initial,
                },
            )
        }
    } else {
        Some(
            FrontierEntry {
                lb_dist,
                lb_id1: if a.min_py_id < b.min_py_id { a.min_py_id } else { b.min_py_id },
                lb_id2: if a.min_py_id < b.min_py_id { b.min_py_id } else { a.min_py_id },
                node_a,
                node_b,
                mode: PairMode::InitialIJ,
                tree: TreeKind::Initial,
            },
        )
    }
}

/// The frontier entry between the dynamic-tree node `node_a` holding the
/// merged group `group_idx` and the node `node_b` with shape `other`.
pub open spec fn group_other_entry(
    lb_dist: DistKey,
    group_id: PyId,
    group_idx: usize,
    other: NodeShape,
    node_a: usize,
    node_b: usize,
) -> FrontierEntry {
    FrontierEntry {
        lb_dist,
        lb_id1: group_id,
        lb_id2: other.min_py_id,
        node_a,
        node_b,
        mode: PairMode::GroupOther { group_id, group_idx },
        tree: TreeKind::Dynamic,
    }
}

impl FrontierEntry {
    /// The frontier entry between initial-tree nodes, if the pair can hold
    /// a pair of elements.
    pub fn new_initial(
        lb_dist: DistKey,
        stats_a: &NodeShape,
        stats_b: &NodeShape,
        node_a: usize,
        node_b: usize,
    ) -> (r: Option<Self>)
        ensures
            r == initial_entry(lb_dist, *stats_a, *stats_b, node_a, node_b),
    {
        if node_a == node_b {
            if stats_a.second_min_py_id == u64::MAX {
                return None;
            }
            Some(
                FrontierEntry {
                    lb_dist,
                    lb_id1: stats_a.min_py_id,
                    lb_id2: stats_a.second_min_py_id,
                    node_a,
                    node_b,
                    mode: PairMode::InitialIJ,
                    tree: TreeKind::Initial,
                },
            )
        } else {
            let (lb_id1, lb_id2) = if stats_a.min_py_id < stats_b.min_py_id {
                (stats_a.min_py_id, stats_b.min_py_id)
            } else {
                (stats_b.min_py_id, stats_a.min_py_id)
            };
            Some(
                FrontierEntry {
                    lb_dist,
                    lb_id1,
                    lb_id2,
                    node_a,
                    node_b,
                    mode: PairMode::InitialIJ,
                    tree: TreeKind::Initial,
                },
            )
        }
    }

    /// The frontier entry between a merged group's node and another node.
    pub fn new_group_other(
        lb_dist: DistKey,
        group_id: PyId,
        group_idx: usize,
        other_stats: &NodeShape,
        node_a: usize,
        node_b: usize,
    ) -> (r: Self)
        ensures
            r == group_other_entry(lb_dist, group_id, group_idx, *other_stats, node_a, node_b),
    {
        FrontierEntry {
            lb_dist,
            lb_id1: group_id,
            lb_id2: other_stats.min_py_id,
            node_a,
            node_b,
            mode: PairMode::GroupOther { group_id, group_idx },
            tree: TreeKind::Dynamic,
        }
    }
}

/// The parent links of a dynamic spatial tree and the leaf that holds each
/// element.  A node's parent is always an earlier node, since children are
/// added after their parent.
#[derive(Clone, Debug)]
pub struct TreeLinks {
    parents: Vec<Option<usize>>,
    elem_leaf: Vec<usize>,
}

/// Whether walking up from `cur` reaches `node`.
pub open spec fn reaches(parents: Seq<Option<usize>>, cur: int, node: int) -> bool
    decreases cur,
{
    if cur < 0 || cur >= parents.len() {
        false
    } else if cur == node {
        true
    } else {
        match parents[cur] {
            Some(p) => p < cur && reaches(parents, p as int, node),
            None => false,
        }
    }
}

impl TreeLinks {
    pub closed spec fn spec_parents(&self) -> Seq<Option<usize>> {
        self.parents@
    }

    pub closed spec fn spec_elem_leaf(&self) -> Seq<usize> {
        self.elem_leaf@
    }

    /// Parents come before their children, and every element's leaf is a node.
    pub closed spec fn wf(&self) -> bool {
        &&& forall|i: int|
            0 <= i < self.parents@.len() ==> (#[trigger] self.parents@[i] matches Some(p) ==> p < i)
        &&& forall|e: int| 0 <= e < self.elem_leaf@.len() ==> #[trigger] self.elem_leaf@[e] < self.parents@.len()
    }

    /// No nodes and no elements.
    pub fn new() -> (r: Self)
        ensures
            r.wf(),
            r.spec_parents() == Seq::<Option<usize>>::empty(),
            r.spec_elem_leaf() == Seq::<usize>::empty(),
    {
        TreeLinks { parents: Vec::new(), elem_leaf: Vec::new() }
    }

    /// Number of nodes.
    pub fn len(&self) -> (r: usize)
        ensures
            r == self.spec_parents().len(),
    {
        self.parents.len()
    }

    /// Adds a node under `parent`, an earlier node; returns its index.
    pub fn push_node(&mut self, parent: Option<usize>) -> (r: usize)
        requires
            old(self).wf(),
            parent matches Some(p) ==> p < old(self).spec_parents().len(),
        ensures
            final(self).wf(),
            r == old(self).spec_parents().len(),
            final(self).spec_parents() == old(self).spec_parents().push(parent),
            final(self).spec_elem_leaf() == old(self).spec_elem_leaf(),
    {
        let r = self.parents.len();
        self.parents.push(parent);
        r
    }

    /// The parent of `node`.
    pub fn parent(&self, node: usize) -> (r: Option<usize>)
        requires
            node < self.spec_parents().len(),
        ensures
            r == self.spec_parents()[node as int],
    {
        self.parents[node]
    }

    /// Records that element `elem` is in leaf `leaf`: the element's entry is
    /// set when it has one, and otherwise one is appended.
    pub fn set_leaf(&mut self, elem: usize, leaf: usize)
        requires
            old(self).wf(),
            leaf < old(self).spec_parents().len(),
        ensures
            final(self).wf(),
            final(self).spec_parents() == old(self).spec_parents(),
            elem < old(self).spec_elem_leaf().len() ==> final(self).spec_elem_leaf() == old(self).spec_elem_leaf().update(
                elem as int,
                leaf,
            ),
            elem >= old(self).spec_elem_leaf().len() ==> final(self).spec_elem_leaf() == old(
                self,
            ).spec_elem_leaf().push(leaf),
    {
        if elem >= self.elem_leaf.len() {
            self.elem_leaf.push(leaf);
        } else {
            self.elem_leaf.set(elem, leaf);
        }
    }

    /// Whether element `elem_idx` is in the subtree of `node_idx`: walking
    /// up from the element's leaf reaches the node.
    pub fn contains_elem(&self, node_idx: usize, elem_idx: usize) -> (r: bool)
        requires
            self.wf(),
        ensures
            r == (elem_idx < self.spec_elem_leaf().len() && reaches(
                self.spec_parents(),
                self.spec_elem_leaf()[elem_idx as int] as int,
                node_idx as int,
            )),
    {
        if elem_idx >= self.elem_leaf.len() {
            return false;
        }
        let mut cur = self.elem_leaf[elem_idx];
        loop
            invariant
                self.wf(),
                elem_idx < self.elem_leaf@.len(),
                cur < self.parents@.len(),
                reaches(self.parents@, self.elem_leaf@[elem_idx as int] as int, node_idx as int) == reaches(
                    self.parents@,
                    cur as int,
                    node_idx as int,
                ),
            decreases cur,
        {
            if cur == node_idx {
                return true;
            }
            match self.parents[cur] {
                Some(parent) => {
                    assert(parent < cur);
                    cur = parent;
                },
                None => return false,
            }
        }
    }
}

} // verus!
