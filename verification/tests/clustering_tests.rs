use bolivar_core::clustering::{cluster_indices, cluster_objects, sort_by_cluster};

#[test]
fn clusters_are_numbered_along_the_sorted_values() {
    // Sorted values 1, 2, 4, 10, 11 with tolerance 1: 2 joins 1, 4 starts a
    // cluster, 10 starts one, 11 joins 10.
    assert_eq!(cluster_indices(&vec![false, true, false, false, true]), vec![0, 0, 1, 2, 2]);
    assert!(cluster_indices(&Vec::new()).is_empty());
    assert_eq!(cluster_indices(&vec![true]), vec![0]);
}

#[test]
fn objects_keep_their_order_and_split_where_the_cluster_changes() {
    let cluster_of = vec![1, 1, 0, 1];
    assert_eq!(cluster_objects(&cluster_of, true), vec![vec![0, 1], vec![2], vec![3]]);
}

#[test]
fn objects_sorted_by_cluster_stay_in_order_within_one() {
    let cluster_of = vec![1, 1, 0, 1, 0];
    assert_eq!(sort_by_cluster(&cluster_of), vec![2, 4, 0, 1, 3]);
    assert_eq!(cluster_objects(&cluster_of, false), vec![vec![2, 4], vec![0, 1, 3]]);
}

#[test]
fn no_objects_no_groups() {
    assert!(cluster_objects(&Vec::new(), false).is_empty());
    assert!(cluster_objects(&Vec::new(), true).is_empty());
}
