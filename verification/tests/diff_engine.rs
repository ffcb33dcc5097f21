use pcompress::diff::{compute_diff, count_changes, Diff};

#[test]
fn new_diff_has_one_empty_partition() {
    let d = Diff::new();
    assert_eq!(d.diff, vec![Vec::<usize>::new()]);
}

#[test]
fn with_capacity_prefills_empty_partitions() {
    let d = Diff::with_capacity(4);
    assert_eq!(d.diff.len(), 4);
    for nodes in &d.diff {
        assert!(nodes.is_empty());
    }
    let none = Diff::with_capacity(0);
    assert_eq!(none.diff.len(), 0);
}

#[test]
fn add_grows_on_demand() {
    let mut d = Diff::new();
    d.add(0, 7);
    d.add(3, 9);
    d.add(3, 2);
    assert_eq!(d.diff, vec![vec![7], vec![], vec![], vec![9, 2]]);
}

#[test]
fn reset_clears_lists_but_keeps_width() {
    let mut d = Diff::new();
    d.add(2, 5);
    d.reset();
    assert_eq!(d.diff, vec![vec![], vec![], vec![]]);
}

#[test]
fn diff_against_self_is_empty() {
    let s = vec![0usize, 1, 1, 2, 0];
    let (d, written) = compute_diff(&s, &s);
    assert!(!written);
    for nodes in &d.diff {
        assert!(nodes.is_empty());
    }
    assert_eq!(d.diff.len(), 1);
}

#[test]
fn diff_lists_changed_nodes_by_new_label() {
    let prev = vec![0usize, 1, 2];
    let next = vec![0usize, 2, 2, 3];
    let (d, written) = compute_diff(&prev, &next);
    assert!(written);
    // node 1 moved to partition 2; node 3 is new with partition 3
    assert_eq!(d.diff, vec![vec![], vec![], vec![1], vec![3]]);
}

#[test]
fn diff_against_empty_lists_every_node() {
    let prev: Vec<usize> = Vec::new();
    let next = vec![1usize, 0, 1];
    let (d, written) = compute_diff(&prev, &next);
    assert!(written);
    assert_eq!(d.diff, vec![vec![1], vec![0, 2]]);
}

#[test]
fn count_changes_counts_moved_and_new_nodes() {
    let prev = vec![0usize, 1, 2];
    let next = vec![0usize, 2, 2, 3];
    assert_eq!(count_changes(&prev, &next), 2);
    assert_eq!(count_changes(&next, &next), 0);
    let empty: Vec<usize> = Vec::new();
    assert_eq!(count_changes(&empty, &next), 4);
}
