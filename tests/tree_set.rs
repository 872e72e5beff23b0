use ds_collection::{BasicBinaryTreeSet, OrderedSet};

fn five_values() -> BasicBinaryTreeSet {
    let mut set = BasicBinaryTreeSet::new();
    for v in [1, 5, 2, 4, 3] {
        set.insert(v);
    }
    set
}

#[test]
fn plain_tree_queries() {
    let set = five_values();
    assert!(set.member(3));
    assert!(!set.member(6));
    assert_eq!(set.predecessor(1), None);
    assert_eq!(set.predecessor(5), Some(4));
    assert_eq!(set.rank(1), 1);
    assert_eq!(set.rank(3), 3);
    assert_eq!(set.rank(6), 5);
    assert_eq!(set.select(0), Some(1));
    assert_eq!(set.select(3), Some(4));
    assert_eq!(set.select(5), None);
}

#[test]
fn plain_tree_deletes() {
    let mut set = five_values();
    set.delete(3);
    assert_eq!(set.select(2), Some(4));
    assert!(!set.member(3));
    let mut set = five_values();
    set.delete(6);
    assert_eq!(set.select(4), Some(5));
    // 5 has a left child 2 that has a right child 4: a two-child delete of 2.
    set.delete(2);
    assert_eq!(set.select(1), Some(3));
    assert_eq!(set.rank(5), 4);
}

#[test]
fn plain_tree_duplicates_and_extremes() {
    let mut set = BasicBinaryTreeSet::new();
    set.insert(i32::MAX);
    set.insert(i32::MIN);
    set.insert(i32::MAX);
    assert_eq!(set.rank(i32::MAX), 2);
    assert_eq!(set.predecessor(i32::MAX), Some(i32::MIN));
    set.delete(i32::MAX);
    assert_eq!(set.rank(i32::MAX), 1);
}
