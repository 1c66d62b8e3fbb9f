use bolivar_core::frontier::{
    PairDecision, decide_pair, expand_frontier, expand_frontier_best, group_candidates, initial_candidates, record_merge,
};
use bolivar_core::spatial::{
    BestEntry, FrontierEntry, GroupHeapEntry, NodeShape, PairMode, TreeKind, merge_min_ids,
};

fn leaf(elements: Vec<usize>, min: u64, second: u64) -> NodeShape {
    NodeShape {
        count: elements.len(),
        element_indices: elements,
        left_child: None,
        right_child: None,
        min_py_id: min,
        second_min_py_id: second,
    }
}

fn inner(count: usize, left: usize, right: usize, min: u64, second: u64) -> NodeShape {
    NodeShape {
        count,
        element_indices: vec![],
        left_child: Some(left),
        right_child: Some(right),
        min_py_id: min,
        second_min_py_id: second,
    }
}

fn initial(node_a: usize, node_b: usize) -> FrontierEntry {
    FrontierEntry {
        lb_dist: 0,
        lb_id1: 0,
        lb_id2: 0,
        node_a,
        node_b,
        mode: PairMode::InitialIJ,
        tree: TreeKind::Initial,
    }
}

fn pairs(entries: &[BestEntry]) -> Vec<(i64, u64, u64, usize, usize)> {
    entries
        .iter()
        .map(|e| match e {
            BestEntry::Pair(p) => (p.dist, p.id1, p.id2, p.elem1_idx, p.elem2_idx),
            BestEntry::Frontier(_) => panic!("expected a pair"),
        })
        .collect()
}

fn frontiers(entries: &[BestEntry]) -> Vec<(i64, u64, u64, usize, usize)> {
    entries
        .iter()
        .map(|e| match e {
            BestEntry::Frontier(f) => (f.lb_dist, f.lb_id1, f.lb_id2, f.node_a, f.node_b),
            BestEntry::Pair(_) => panic!("expected a frontier entry"),
        })
        .collect()
}

fn dist(x: usize, y: usize) -> i64 {
    (x * 10 + y) as i64
}

#[test]
fn leaf_with_itself_emits_active_pairs_in_order() {
    let nodes = vec![leaf(vec![0, 1, 2, 3], 0, 1)];
    let py = vec![0, 1, 2, 3];
    let done = vec![false, true, false, false];
    let mut heap = Vec::new();
    expand_frontier_best(initial(0, 0), &nodes, &vec![], &py, &done, &dist, &|_, _, _| 0, &|_, _| true, &mut heap);
    assert_eq!(pairs(&heap), vec![(2, 0, 2, 0, 2), (3, 0, 3, 0, 3), (23, 2, 3, 2, 3)]);
}

#[test]
fn two_leaves_emit_pairs_smaller_id_first() {
    let nodes = vec![leaf(vec![2], 7, u64::MAX), leaf(vec![0, 1], 1, 4)];
    let py = vec![4, 1, 7];
    let done = vec![false, false, false];
    let mut heap = Vec::new();
    expand_frontier_best(initial(0, 1), &nodes, &vec![], &py, &done, &dist, &|_, _, _| 0, &|_, _| true, &mut heap);
    assert_eq!(pairs(&heap), vec![(20, 4, 7, 0, 2), (21, 1, 7, 1, 2)]);
}

#[test]
fn group_pairs_need_the_group_in_its_node() {
    let dynamic = vec![leaf(vec![3], 9, u64::MAX), leaf(vec![0, 3, 1], 0, 1)];
    let py = vec![0, 1, 2, 9];
    let done = vec![false, true, false, false];
    let entry = FrontierEntry {
        lb_dist: 0,
        lb_id1: 9,
        lb_id2: 0,
        node_a: 0,
        node_b: 1,
        mode: PairMode::GroupOther { group_id: 9, group_idx: 3 },
        tree: TreeKind::Dynamic,
    };
    let mut heap = Vec::new();
    expand_frontier_best(entry.clone(), &vec![], &dynamic, &py, &done, &dist, &|_, _, _| 0, &|_, _| true, &mut heap);
    assert_eq!(pairs(&heap), vec![(30, 9, 0, 3, 0)]);

    let mut none = Vec::new();
    expand_frontier_best(entry, &vec![], &dynamic, &py, &done, &dist, &|_, _, _| 0, &|_, _| false, &mut none);
    assert!(none.is_empty());
}

#[test]
fn splitting_a_node_with_itself_pairs_its_children() {
    let nodes = vec![
        inner(3, 1, 2, 0, 1),
        leaf(vec![0, 1], 0, 1),
        leaf(vec![2], 2, u64::MAX),
    ];
    let py = vec![0, 1, 2];
    let done = vec![false; 3];
    let mut heap = Vec::new();
    let bound = |_: TreeKind, a: usize, b: usize| (a * 100 + b) as i64;
    expand_frontier_best(initial(0, 0), &nodes, &vec![], &py, &done, &dist, &bound, &|_, _| true, &mut heap);
    // The right child has one element, so it has no pair with itself.
    assert_eq!(frontiers(&heap), vec![(101, 0, 1, 1, 1), (102, 0, 2, 1, 2)]);
}

#[test]
fn the_larger_node_is_split_against_the_other() {
    let nodes = vec![
        inner(3, 1, 2, 0, 1),
        leaf(vec![0, 1], 0, 1),
        leaf(vec![2], 2, u64::MAX),
        leaf(vec![3], 3, u64::MAX),
    ];
    let py = vec![0, 1, 2, 3];
    let done = vec![false; 4];
    let mut heap = Vec::new();
    let bound = |_: TreeKind, a: usize, b: usize| (a * 100 + b) as i64;
    expand_frontier_best(initial(3, 0), &nodes, &vec![], &py, &done, &dist, &bound, &|_, _| true, &mut heap);
    assert_eq!(frontiers(&heap), vec![(103, 0, 3, 1, 3), (203, 2, 3, 2, 3)]);
}

#[test]
fn new_initial_entries_need_two_elements() {
    let one = leaf(vec![0], 5, u64::MAX);
    let two = leaf(vec![0, 1], 5, 8);
    assert!(FrontierEntry::new_initial(1, &one, &one, 4, 4).is_none());
    let e = FrontierEntry::new_initial(1, &two, &two, 4, 4).unwrap();
    assert_eq!((e.lb_id1, e.lb_id2), (5, 8));
    let c = FrontierEntry::new_initial(1, &two, &leaf(vec![2], 3, u64::MAX), 4, 6).unwrap();
    assert_eq!((c.lb_id1, c.lb_id2), (3, 5));
    let g = FrontierEntry::new_group_other(2, 11, 7, &two, 1, 2);
    assert_eq!((g.lb_id1, g.lb_id2), (11, 5));
    assert_eq!(g.tree, TreeKind::Dynamic);
}

#[test]
fn popped_pairs_are_skipped_requeued_or_merged() {
    let best = GroupHeapEntry { skip_isany: false, dist: 3, id1: 0, id2: 1, elem1_idx: 0, elem2_idx: 1 };
    let done = vec![false, false, true];
    assert!(matches!(decide_pair(best.clone(), &done, &|_, _| true), PairDecision::Requeue(e) if e.skip_isany && e.dist == 3));
    assert!(matches!(decide_pair(best.clone(), &done, &|_, _| false), PairDecision::Merge));
    let merged = GroupHeapEntry { elem2_idx: 2, ..best.clone() };
    assert!(matches!(decide_pair(merged, &done, &|_, _| false), PairDecision::Skip));
    let checked = GroupHeapEntry { skip_isany: true, ..best };
    assert!(matches!(decide_pair(checked, &done, &|_, _| true), PairDecision::Merge));
}

#[test]
fn merges_take_the_next_index_and_id() {
    let mut done = vec![false, false, false];
    let mut py = vec![0, 1, 2];
    let mut next = 3;
    assert_eq!(record_merge(&mut done, &mut py, &mut next, 0, 2), (3, 3));
    assert_eq!(done, vec![true, false, true, false]);
    assert_eq!(py, vec![0, 1, 2, 3]);
    assert_eq!(next, 4);
}

#[test]
fn merged_nodes_keep_the_two_smallest_ids() {
    assert_eq!(merge_min_ids(5, u64::MAX, 3, 7), (3, 5));
    assert_eq!(merge_min_ids(1, 1, 1, 2), (1, 1));
    assert_eq!(merge_min_ids(9, u64::MAX, 4, u64::MAX), (4, 9));
}

#[test]
fn two_heap_expansion_sends_pairs_to_the_main_heap() {
    let nodes = vec![leaf(vec![0, 1, 2, 3], 0, 1)];
    let py = vec![0, 1, 2, 3];
    let done = vec![false, true, false, false];
    let mut main = Vec::new();
    let mut frontier = Vec::new();
    expand_frontier(initial(0, 0), &nodes, &vec![], &py, &done, &dist, &|_, _, _| 0, &|_, _| true, &mut main, &mut frontier);
    let got: Vec<BestEntry> = main.into_iter().map(BestEntry::Pair).collect();
    assert_eq!(pairs(&got), vec![(2, 0, 2, 0, 2), (3, 0, 3, 0, 3), (23, 2, 3, 2, 3)]);
    assert!(frontier.is_empty());
}

#[test]
fn two_heap_expansion_sends_splits_to_the_frontier() {
    let nodes = vec![
        inner(3, 1, 2, 0, 1),
        leaf(vec![0, 1], 0, 1),
        leaf(vec![2], 2, u64::MAX),
    ];
    let py = vec![0, 1, 2];
    let done = vec![false; 3];
    let mut main = Vec::new();
    let mut frontier = Vec::new();
    let bound = |_: TreeKind, a: usize, b: usize| (a * 100 + b) as i64;
    expand_frontier(initial(0, 0), &nodes, &vec![], &py, &done, &dist, &bound, &|_, _| true, &mut main, &mut frontier);
    let got: Vec<BestEntry> = frontier.into_iter().map(BestEntry::Frontier).collect();
    assert_eq!(frontiers(&got), vec![(101, 0, 1, 1, 1), (102, 0, 2, 1, 2)]);
    assert!(main.is_empty());
}

#[test]
fn self_pairs_put_the_smaller_id_first() {
    // The leaf lists its elements by box position, not by id.
    let nodes = vec![leaf(vec![1, 0], 0, 1)];
    let py = vec![0, 1];
    let done = vec![false, false];
    let mut heap = Vec::new();
    expand_frontier_best(initial(0, 0), &nodes, &vec![], &py, &done, &dist, &|_, _, _| 0, &|_, _| true, &mut heap);
    assert_eq!(pairs(&heap), vec![(10, 0, 1, 0, 1)]);
}

#[test]
fn initial_candidates_are_every_pair_earlier_first() {
    let py_ids: Vec<u64> = vec![0, 1, 2];
    let dist = |x: usize, y: usize| (x * 10 + y) as i64;
    let pairs = initial_candidates(&py_ids, &dist);
    let got: Vec<(usize, usize, i64, u64, u64, bool)> =
        pairs.iter().map(|p| (p.elem1_idx, p.elem2_idx, p.dist, p.id1, p.id2, p.skip_isany)).collect();
    assert_eq!(
        got,
        vec![(0, 1, 1, 0, 1, false), (0, 2, 2, 0, 2, false), (1, 2, 12, 1, 2, false)]
    );
}

#[test]
fn group_candidates_pair_the_group_with_unmerged_elements() {
    let py_ids: Vec<u64> = vec![0, 1, 2, 7];
    let done = vec![true, false, true, false];
    let dist = |x: usize, y: usize| (x * 10 + y) as i64;
    let pairs = group_candidates(3, &done, &py_ids, &dist);
    let got: Vec<(usize, usize, i64, u64, u64)> =
        pairs.iter().map(|p| (p.elem1_idx, p.elem2_idx, p.dist, p.id1, p.id2)).collect();
    assert_eq!(got, vec![(3, 1, 31, 7, 1)]);
}
