use ds_collection::{BasicBinaryTree, OrderedSet};

fn create_testing_data() -> BasicBinaryTree {
    let mut set = BasicBinaryTree::new();
    set.insert(1);
    set.insert(5);
    set.insert(2);
    set.insert(4);
    set.insert(3);
    set
}

#[test]
fn basic_binary_tree_test_member() {
    let set = create_testing_data();
    assert_eq!(set.member(3), true);
    assert_eq!(set.member(6), false);
}

#[test]
fn basic_binary_tree_test_predecessor() {
    let set = create_testing_data();
    assert_eq!(set.predecessor(1), None);
    assert_eq!(set.predecessor(5), Some(4));
}

#[test]
fn basic_binary_tree_test_rank() {
    let set = create_testing_data();
    assert_eq!(set.rank(1), 1);
    assert_eq!(set.rank(3), 3);
    assert_eq!(set.rank(6), 5);
}

#[test]
fn basic_binary_tree_test_select() {
    let set = create_testing_data();
    assert_eq!(set.select(0), Some(1));
    assert_eq!(set.select(3), Some(4));
}

#[test]
fn basic_binary_tree_test_delete1() {
    let mut set = create_testing_data();
    assert_eq!(set.select(2), Some(3));
    set.delete(3);
    assert_eq!(set.select(2), Some(4));
}

#[test]
fn basic_binary_tree_test_delete2() {
    let mut set = create_testing_data();
    assert_eq!(set.select(4), Some(5));
    set.delete(6);
    assert_eq!(set.select(4), Some(5));
}

/// Checks the cached size of every node against its children.
fn sizes_consistent(link: &Option<Box<ds_collection::basic_binary_tree::Node>>) -> usize {
    match link {
        None => 0,
        Some(n) => {
            let total = 1 + sizes_consistent(&n.left) + sizes_consistent(&n.right);
            assert_eq!(n.size, total);
            total
        }
    }
}

#[test]
fn tree_scenario_insert_query_delete() {
    let mut set = create_testing_data();
    assert!(set.member(3));
    assert!(!set.member(6));
    assert_eq!(set.predecessor(1), None);
    assert_eq!(set.predecessor(5), Some(4));
    assert_eq!(set.rank(1), 1);
    assert_eq!(set.rank(3), 3);
    assert_eq!(set.rank(6), 5);
    assert_eq!(set.select(0), Some(1));
    assert_eq!(set.select(3), Some(4));
    set.delete(3);
    assert_eq!(set.select(2), Some(4));
    assert_eq!(set.select(3), Some(5));
    assert_eq!(set.select(4), None);
    let mut fresh = create_testing_data();
    fresh.delete(6);
    assert_eq!(fresh.select(4), Some(5));
}

#[test]
fn tree_empty_set() {
    let set = BasicBinaryTree::new();
    assert!(!set.member(0));
    assert_eq!(set.predecessor(i32::MAX), None);
    assert_eq!(set.rank(i32::MAX), 0);
    assert_eq!(set.select(0), None);
}

#[test]
fn tree_duplicate_insert_is_no_op() {
    let mut set = create_testing_data();
    set.insert(4);
    set.insert(1);
    assert_eq!(set.rank(i32::MAX), 5);
    assert_eq!(sizes_consistent(&set.root), 5);
    assert_eq!(set.select(5), None);
}

#[test]
fn tree_sizes_stay_consistent() {
    let mut set = BasicBinaryTree::new();
    let values = [50, 20, 80, 10, 30, 70, 90, 25, 35, 75, 5, 95];
    for v in values {
        set.insert(v);
        sizes_consistent(&set.root);
    }
    for v in [20, 80, 50, 1000, 5, 35] {
        set.delete(v);
        sizes_consistent(&set.root);
        assert!(!set.member(v));
    }
    assert_eq!(sizes_consistent(&set.root), 7);
    let mut expected = vec![10, 25, 30, 70, 75, 90, 95];
    for (j, v) in expected.drain(..).enumerate() {
        assert_eq!(set.select(j), Some(v));
    }
}

#[test]
fn tree_delete_each_shape() {
    let mut set = BasicBinaryTree::new();
    for v in [40, 20, 60, 10, 70] {
        set.insert(v);
    }
    let root_value = |t: &BasicBinaryTree| t.root.as_ref().map(|n| n.value);
    // 20 has only a left child: 10 takes its place.
    set.delete(20);
    assert_eq!(set.root.as_ref().unwrap().left.as_ref().map(|n| n.value), Some(10));
    // 60 has only a right child: 70 takes its place.
    set.delete(60);
    assert_eq!(set.root.as_ref().unwrap().right.as_ref().map(|n| n.value), Some(70));
    // 40 has two children: its predecessor 10 takes its place.
    set.delete(40);
    assert_eq!(root_value(&set), Some(10));
    assert_eq!(set.root.as_ref().unwrap().size, 2);
    // 70 is a leaf.
    set.delete(70);
    assert_eq!(root_value(&set), Some(10));
    assert_eq!(set.select(1), None);
    set.delete(10);
    assert!(set.root.is_none());
}

#[test]
fn tree_rank_select_duality() {
    let mut set = BasicBinaryTree::new();
    for v in [7, -3, 12, 0, 5, -9, 30] {
        set.insert(v);
    }
    for j in 0..7 {
        let v = set.select(j).unwrap();
        assert_eq!(set.rank(v), j + 1);
        assert_eq!(set.select(set.rank(v) - 1), Some(v));
    }
    assert_eq!(set.rank(30), 7);
}

#[test]
fn tree_predecessor_excludes_the_value_itself() {
    let mut set = BasicBinaryTree::new();
    for v in [10, 20, 30] {
        set.insert(v);
    }
    assert_eq!(set.predecessor(20), Some(10));
    assert_eq!(set.predecessor(21), Some(20));
    assert_eq!(set.predecessor(10), None);
    assert_eq!(set.predecessor(i32::MAX), Some(30));
    assert_eq!(set.rank(i32::MIN), 0);
}

#[test]
fn tree_insert_then_member_delete_then_not() {
    let mut set = BasicBinaryTree::new();
    set.insert(i32::MIN);
    set.insert(i32::MAX);
    assert!(set.member(i32::MIN));
    assert!(set.member(i32::MAX));
    set.delete(i32::MIN);
    assert!(!set.member(i32::MIN));
    set.delete(i32::MIN);
    assert!(!set.member(i32::MIN));
    assert!(set.member(i32::MAX));
}
