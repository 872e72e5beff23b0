//! Ordered sets of `i32` behind one interface, with a size-augmented binary
//! search tree (an order-statistics tree) as the main implementation.
pub mod ordered_set;
pub mod basic_binary_tree;
pub mod dynamic_arr_set;
pub mod doubly_linked_list;
pub mod tree_set;
pub mod red_black_tree;

pub use basic_binary_tree::BasicBinaryTree;
pub use doubly_linked_list::DoublyLinkedList;
pub use dynamic_arr_set::DynamicArraySet;
pub use ordered_set::OrderedSet;
pub use red_black_tree::RedBlackTree;
pub use tree_set::BasicBinaryTreeSet;
