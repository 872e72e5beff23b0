use ds_collection::{DynamicArraySet, OrderedSet};

fn create_testing_data() -> DynamicArraySet {
    let mut set = DynamicArraySet::new();
    set.insert(1);
    set.insert(5);
    set.insert(2);
    set.insert(4);
    set.insert(3);
    set
}

#[test]
fn dynamic_arr_set_test_member() {
    let set = create_testing_data();
    assert_eq!(set.member(3), true);
    assert_eq!(set.member(6), false);
}

#[test]
fn dynamic_arr_set_test_predecessor() {
    let set = create_testing_data();
    assert_eq!(set.predecessor(1), None);
    assert_eq!(set.predecessor(5), Some(4));
}

// Rank counts the values at most x, as for every ordered set.
#[test]
fn dynamic_arr_set_test_rank() {
    let set = create_testing_data();
    assert_eq!(set.rank(1), 1);
    assert_eq!(set.rank(3), 3);
}

#[test]
fn dynamic_arr_set_test_select() {
    let set = create_testing_data();
    assert_eq!(set.select(0), Some(1));
    assert_eq!(set.select(3), Some(4));
}

#[test]
fn dynamic_arr_set_test_delete1() {
    let mut set = create_testing_data();
    assert_eq!(set.select(2), Some(3));
    set.delete(3);
    assert_eq!(set.select(2), Some(4));
}

#[test]
fn dynamic_arr_set_test_delete2() {
    let mut set = create_testing_data();
    assert_eq!(set.select(4), Some(5));
    set.delete(6);
    assert_eq!(set.select(4), Some(5));
}

#[test]
fn array_set_keeps_values_sorted_and_distinct() {
    let mut set = DynamicArraySet::new();
    for v in [9, -2, 9, 4, -2, 0] {
        set.insert(v);
    }
    assert_eq!(set.values, vec![-2, 0, 4, 9]);
    set.delete(4);
    set.delete(100);
    assert_eq!(set.values, vec![-2, 0, 9]);
}

#[test]
fn array_set_predecessor_of_absent_value() {
    let set = create_testing_data();
    assert_eq!(set.predecessor(i32::MAX), Some(5));
    assert_eq!(set.predecessor(3), Some(2));
    assert_eq!(set.rank(0), 0);
    assert_eq!(set.rank(6), 5);
    assert_eq!(set.select(5), None);
}
