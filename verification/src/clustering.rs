//! Tolerance clustering of sorted values, and grouping of objects by
//! cluster.
//!
//! Values are clustered in sorted order: each value joins the cluster of
//! the value before it when it lies within the tolerance of it (a test on
//! page coordinates, supplied per value), and otherwise starts a new one.
//! Objects are then grouped by the cluster of their value: in their own
//! order, cutting where the cluster changes, or stably sorted by cluster
//! first.
use vstd::prelude::*;

verus! {

/// The cluster of each value, numbered from 0: the first value starts
/// cluster 0, and each later one stays in the previous value's cluster when
/// it joins it, else starts the next.
pub open spec fn cluster_numbers(joins: Seq<bool>, k: int) -> Seq<usize>
    decreases k,
{
    if k <= 0 {
        Seq::empty()
    } else if k == 1 {
        seq![0usize]
    } else {
        let prev = cluster_numbers(joins, k - 1);
        let last = prev[k - 2];
        prev.push(if joins[k - 1] {
            last
        } else {
            (last + 1) as usize
        })
    }
}

/// Numbers the clusters of sorted values: `joins[k]` says whether value `k`
/// lies within the tolerance of value `k - 1` (the first is ignored).
pub fn cluster_indices(joins: &Vec<bool>) -> (r: Vec<usize>)
    ensures
        r@ == cluster_numbers(joins@, joins.len() as int),
        forall|k: int| 0 <= k < r.len() ==> #[trigger] r@[k] <= k,
{
    let mut out: Vec<usize> = Vec::new();
    if joins.len() == 0 {
        return out;
    }
    out.push(0);
    let mut k: usize = 1;
    while k < joins.len()
        invariant
            1 <= k <= joins.len(),
            out.len() == k,
            out@ == cluster_numbers(joins@, k as int),
            forall|j: int| 0 <= j < out.len() ==> #[trigger] out@[j] <= j,
        decreases joins.len() - k,
    {
        let last = out[k - 1];
        let next = if joins[k] {
            last
        } else {
            last + 1
        };
        out.push(next);
        k = k + 1;
    }
    out
}

/// The first `k` objects of `order` in runs of one cluster: each run
/// continues while the cluster stays the same and a new one starts where
/// it changes.
pub open spec fn cluster_runs(cluster_of: Seq<usize>, order: Seq<usize>, k: int) -> Seq<Seq<usize>>
    decreases k,
{
    if k <= 0 {
        Seq::empty()
    } else if k == 1 {
        seq![seq![order[0]]]
    } else {
        let prev = cluster_runs(cluster_of, order, k - 1);
        if cluster_of[order[k - 1] as int] != cluster_of[order[k - 2] as int] {
            prev.push(seq![order[k - 1]])
        } else {
            prev.update(prev.len() - 1, prev.last().push(order[k - 1]))
        }
    }
}

/// The lists as sequences.
pub open spec fn lists_view(lists: Seq<Vec<usize>>) -> Seq<Seq<usize>> {
    lists.map_values(|g: Vec<usize>| g@)
}

proof fn lemma_cluster_runs_nonempty(cluster_of: Seq<usize>, order: Seq<usize>, k: int)
    requires
        k >= 1,
    ensures
        cluster_runs(cluster_of, order, k).len() >= 1,
    decreases k,
{
    if k > 1 {
        lemma_cluster_runs_nonempty(cluster_of, order, k - 1);
    }
}

/// `a` comes before `b` when ordered by cluster, then by index.
pub open spec fn cluster_then_index_lt(cluster_of: Seq<usize>, a: usize, b: usize) -> bool {
    cluster_of[a as int] < cluster_of[b as int] || (cluster_of[a as int] == cluster_of[b as int] && a < b)
}

/// `order` lists each of `0..n` once, by cluster and then by index: the
/// stable sort of the objects by cluster.
pub open spec fn stably_sorted(cluster_of: Seq<usize>, order: Seq<usize>) -> bool {
    &&& order.len() == cluster_of.len()
    &&& forall|k: int| 0 <= k < order.len() ==> #[trigger] order[k] < cluster_of.len()
    &&& forall|a: int, b: int| 0 <= a < b < order.len() ==> cluster_then_index_lt(cluster_of, #[trigger] order[a], #[trigger] order[b])
}

proof fn lemma_sorted_is_permutation(cluster_of: Seq<usize>, order: Seq<usize>)
    requires
        stably_sorted(cluster_of, order),
    ensures
        forall|x: usize| x < cluster_of.len() ==> #[trigger] order.contains(x),
{
    let n = cluster_of.len() as int;
    let ints = order.map_values(|x: usize| x as int);
    assert(ints.no_duplicates()) by {
        assert forall|a: int, b: int| 0 <= a < ints.len() && 0 <= b < ints.len() && a != b implies ints[a] != ints[b] by {
            if a < b {
                assert(cluster_then_index_lt(cluster_of, order[a], order[b]));
            } else {
                assert(cluster_then_index_lt(cluster_of, order[b], order[a]));
            }
        }
    }
    ints.unique_seq_to_set();
    vstd::set_lib::lemma_int_range(0, n);
    let range = vstd::set_lib::set_int_range(0, n);
    assert(ints.to_set().subset_of(range)) by {
        assert forall|x: int| ints.to_set().contains(x) implies range.contains(x) by {
            let i = choose|i: int| 0 <= i < ints.len() && ints[i] == x;
            assert(order[i] < n);
        }
    }
    assert(ints.to_set() =~= range) by {
        if !(ints.to_set() =~= range) {
            let missing = choose|x: int| range.contains(x) && !ints.to_set().contains(x);
            vstd::set_lib::lemma_len_subset(ints.to_set(), range.remove(missing));
        }
    }
    assert forall|x: usize| x < cluster_of.len() implies #[trigger] order.contains(x) by {
        assert(range.contains(x as int));
        let i = choose|i: int| 0 <= i < ints.len() && ints[i] == x as int;
        assert(order[i] == x);
    }
}

fn before(cluster_of: &Vec<usize>, a: usize, b: usize) -> (r: bool)
    requires
        a < cluster_of.len(),
        b < cluster_of.len(),
    ensures
        r == cluster_then_index_lt(cluster_of@, a, b),
{
    cluster_of[a] < cluster_of[b] || (cluster_of[a] == cluster_of[b] && a < b)
}

/// The objects' indices stably sorted by cluster.
pub fn sort_by_cluster(cluster_of: &Vec<usize>) -> (r: Vec<usize>)
    ensures
        stably_sorted(cluster_of@, r@),
        forall|x: usize| x < cluster_of.len() ==> #[trigger] r@.contains(x),
{
    let n = cluster_of.len();
    let mut order: Vec<usize> = Vec::new();
    let mut i: usize = 0;
    while i < n
        invariant
            i <= n == cluster_of.len(),
            order.len() == i,
            forall|k: int| 0 <= k < order.len() ==> #[trigger] order@[k] < i,
            forall|a: int, b: int|
                0 <= a < b < order.len() ==> cluster_then_index_lt(cluster_of@, #[trigger] order@[a], #[trigger] order@[b]),
        decreases n - i,
    {
        let mut pos: usize = 0;
        while pos < order.len() && before(cluster_of, order[pos], i)
            invariant
                pos <= order.len(),
                order.len() == i < n == cluster_of.len(),
                forall|k: int| 0 <= k < order.len() ==> #[trigger] order@[k] < i,
                forall|k: int| 0 <= k < pos ==> cluster_then_index_lt(cluster_of@, #[trigger] order@[k], i),
            decreases order.len() - pos,
        {
            pos = pos + 1;
        }
        let ghost old_order = order@;
        proof {
            if pos < order.len() {
                assert(!cluster_then_index_lt(cluster_of@, order@[pos as int], i));
            }
        }
        order.insert(pos, i);
        proof {
            assert forall|a: int, b: int|
                0 <= a < b < order.len() implies cluster_then_index_lt(cluster_of@, #[trigger] order@[a], #[trigger] order@[b]) by {
                if b < pos {
                    assert(order@[a] == old_order[a] && order@[b] == old_order[b]);
                } else if b == pos {
                    assert(order@[a] == old_order[a]);
                } else if a > pos {
                    assert(order@[a] == old_order[a - 1] && order@[b] == old_order[b - 1]);
                } else if a == pos {
                    assert(order@[b] == old_order[b - 1]);
                    assert(old_order[b - 1] < i);
                    if b - 1 > pos {
                        assert(cluster_then_index_lt(cluster_of@, old_order[pos as int], old_order[b - 1]));
                    }
                } else {
                    assert(order@[a] == old_order[a] && order@[b] == old_order[b - 1]);
                }
            }
            assert forall|k: int| 0 <= k < order.len() implies #[trigger] order@[k] < i + 1 by {
                if k < pos {
                    assert(order@[k] == old_order[k]);
                } else if k > pos {
                    assert(order@[k] == old_order[k - 1]);
                }
            }
        }
        i = i + 1;
    }
    proof {
        lemma_sorted_is_permutation(cluster_of@, order@);
    }
    order
}

/// Groups objects by cluster: `cluster_of[i]` is the cluster of object
/// `i`; in the objects' own order when `preserve_order`, else stably sorted
/// by cluster; a group ends where the cluster changes. Gives the objects'
/// indices of each group.
pub fn cluster_objects(cluster_of: &Vec<usize>, preserve_order: bool) -> (r: Vec<Vec<usize>>)
    ensures
        exists|order: Seq<usize>|
            {
                &&& if preserve_order {
                    order == Seq::new(cluster_of.len() as nat, |k: int| k as usize)
                } else {
                    stably_sorted(cluster_of@, order)
                }
                &&& lists_view(r@) == cluster_runs(cluster_of@, order, order.len() as int)
            },
{
    let n = cluster_of.len();
    let order: Vec<usize> = if preserve_order {
        let mut o: Vec<usize> = Vec::new();
        let mut k: usize = 0;
        while k < n
            invariant
                k <= n,
                o@ == Seq::new(k as nat, |j: int| j as usize),
            decreases n - k,
        {
            o.push(k);
            assert(o@ =~= Seq::new((k + 1) as nat, |j: int| j as usize));
            k = k + 1;
        }
        o
    } else {
        sort_by_cluster(cluster_of)
    };
    proof {
        if preserve_order {
            assert forall|k: int| 0 <= k < order.len() implies #[trigger] order@[k] < cluster_of.len() by {}
        }
    }
    let mut groups: Vec<Vec<usize>> = Vec::new();
    assert(lists_view(groups@) =~= cluster_runs(cluster_of@, order@, 0));
    let mut k: usize = 0;
    while k < order.len()
        invariant
            k <= order.len() == n == cluster_of.len(),
            forall|j: int| 0 <= j < order.len() ==> #[trigger] order@[j] < n,
            lists_view(groups@) == cluster_runs(cluster_of@, order@, k as int),
        decreases order.len() - k,
    {
        let x = order[k];
        let ghost prev = cluster_runs(cluster_of@, order@, k as int);
        if k == 0 || cluster_of[x] != cluster_of[order[k - 1]] {
            let ghost before = lists_view(groups@);
            let mut g: Vec<usize> = Vec::new();
            g.push(x);
            groups.push(g);
            proof {
                assert(lists_view(groups@) =~= before.push(seq![x]));
                if k == 0 {
                    assert(before =~= Seq::<Seq<usize>>::empty());
                }
            }
        } else {
            proof {
                lemma_cluster_runs_nonempty(cluster_of@, order@, k as int);
            }
            let ghost before = lists_view(groups@);
            let mut g = groups.pop().unwrap();
            assert(g@ == before.last());
            g.push(x);
            groups.push(g);
            proof {
                assert(lists_view(groups@) =~= before.update(before.len() - 1, before.last().push(x)));
            }
        }
        k = k + 1;
    }
    groups
}

} // verus!
