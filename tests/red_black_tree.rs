use ds_collection::red_black_tree::{Color, Node};
use ds_collection::RedBlackTree;

fn in_order(link: &Option<Box<Node>>, out: &mut Vec<i32>) {
    if let Some(n) = link {
        in_order(&n.left, out);
        out.push(n.value);
        in_order(&n.right, out);
    }
}

fn all_black(link: &Option<Box<Node>>) -> bool {
    match link {
        None => true,
        Some(n) => matches!(n.color, Color::Black) && all_black(&n.left) && all_black(&n.right),
    }
}

#[test]
fn red_black_fixed_tree() {
    let t = RedBlackTree::new_test();
    let mut values = Vec::new();
    in_order(&t.root, &mut values);
    assert_eq!(values, vec![1, 2, 3, 4, 5, 6, 7]);
    assert!(all_black(&t.root));
    let root = t.root.as_ref().unwrap();
    assert_eq!(root.value, 4);
    assert_eq!(root.left.as_ref().unwrap().value, 2);
    assert_eq!(root.right.as_ref().unwrap().value, 6);
}

#[test]
fn red_black_insert_places_red_leaves() {
    let mut t = RedBlackTree::new();
    for v in [1, 5, 2, 4, 3, 4] {
        t.insert(v);
    }
    let mut values = Vec::new();
    in_order(&t.root, &mut values);
    assert_eq!(values, vec![1, 2, 3, 4, 5]);
    let root = t.root.as_ref().unwrap();
    assert_eq!(root.value, 1);
    assert!(matches!(root.color, Color::Red));
    assert!(root.left.is_none());
    assert_eq!(root.right.as_ref().unwrap().value, 5);
}
