//! The first step towards a red-black tree: coloured nodes in a binary search
//! tree. Insertion places a red leaf; the rotations and recolouring that
//! would restore balance are not there yet, and neither is deletion.
use vstd::prelude::*;

use crate::ordered_set::{lemma_contains_parts, strictly_sorted};

verus! {

/// The colour of a node.
pub enum Color {
    Red,
    Black,
}

/// One coloured node; it owns its two subtrees.
pub struct Node {
    pub left: Option<Box<Node>>,
    pub right: Option<Box<Node>>,
    pub value: i32,
    pub color: Color,
}

/// The values of a subtree in order (none for no subtree).
pub open spec fn link_seq(link: Option<Box<Node>>) -> Seq<i32>
    decreases link,
{
    match link {
        None => Seq::empty(),
        Some(n) => n.in_order(),
    }
}

impl Node {
    /// The values of the subtree rooted here: left subtree, this node, right subtree.
    pub open spec fn in_order(self) -> Seq<i32>
        decreases self,
    {
        link_seq(self.left) + seq![self.value] + link_seq(self.right)
    }

    /// The values of the left subtree of every node are below its own, those
    /// of its right subtree above.
    pub open spec fn ordered(self) -> bool
        decreases self,
    {
        &&& link_ordered(self.left)
        &&& link_ordered(self.right)
        &&& forall|y: i32| link_seq(self.left).contains(y) ==> y < self.value
        &&& forall|y: i32| link_seq(self.right).contains(y) ==> self.value < y
    }

    /// Every node of the subtree is black.
    pub open spec fn all_black(self) -> bool
        decreases self,
    {
        link_all_black(self.left) && link_all_black(self.right) && self.color is Black
    }
}

/// No subtree, or an ordered one.
pub open spec fn link_ordered(link: Option<Box<Node>>) -> bool
    decreases link,
{
    match link {
        None => true,
        Some(n) => n.ordered(),
    }
}

/// No subtree, or one whose nodes are all black.
pub open spec fn link_all_black(link: Option<Box<Node>>) -> bool
    decreases link,
{
    match link {
        None => true,
        Some(n) => n.all_black(),
    }
}

/// An ordered subtree lists its values in strictly ascending order.
proof fn lemma_link_ordered(link: Option<Box<Node>>)
    requires
        link_ordered(link),
    ensures
        strictly_sorted(link_seq(link)),
    decreases link,
{
    if let Some(n) = link {
        lemma_link_ordered(n.left);
        lemma_link_ordered(n.right);
        let l = link_seq(n.left);
        let r = link_seq(n.right);
        let s = link_seq(link);
        assert forall|i: int, j: int| 0 <= i < j < s.len() implies s[i] < s[j] by {
            if i < l.len() {
                assert(s[i] == l[i] && l.contains(l[i]));
            }
            if j > l.len() {
                assert(s[j] == r[j - l.len() - 1] && r.contains(r[j - l.len() - 1]));
            }
        }
    }
}

/// A subtree of one node.
fn leaf(x: i32, color: Color) -> (r: Box<Node>)
    ensures
        r.ordered(),
        r.in_order() == seq![x],
        r.color == color,
        color is Black ==> r.all_black(),
{
    let r = Box::new(Node { left: None, right: None, value: x, color });
    assert(r.in_order() =~= seq![x]);
    r
}

/// A node over two subtrees, the left one below `x` and the right one above.
fn join(left: Box<Node>, x: i32, right: Box<Node>, color: Color) -> (r: Box<Node>)
    requires
        left.ordered(),
        right.ordered(),
        forall|y: i32| left.in_order().contains(y) ==> y < x,
        forall|y: i32| right.in_order().contains(y) ==> x < y,
    ensures
        r.ordered(),
        r.in_order() == left.in_order() + seq![x] + right.in_order(),
        r.value == x,
        left.all_black() && right.all_black() && color is Black ==> r.all_black(),
{
    let r = Box::new(Node { left: Some(left), right: Some(right), value: x, color });
    assert(link_ordered(r.left) && link_ordered(r.right));
    assert(link_seq(r.left) == left.in_order());
    assert(link_seq(r.right) == right.in_order());
    r
}

/// Adds `x` to the subtree as a red leaf, unless it is already present.
fn insert_into(link: Option<Box<Node>>, x: i32) -> (r: Box<Node>)
    requires
        link_ordered(link),
    ensures
        r.ordered(),
        forall|y: i32| r.in_order().contains(y) <==> (link_seq(link).contains(y) || y == x),
    decreases link,
{
    match link {
        None => {
            let r = leaf(x, Color::Red);
            assert(r.in_order()[0] == x);
            r
        },
        Some(b) => {
            let mut n = *b;
            let ghost l = link_seq(n.left);
            let ghost r = link_seq(n.right);
            proof {
                lemma_contains_parts(l, n.value, r);
            }
            if x < n.value {
                let new_left = insert_into(n.left.take(), x);
                assert(link_seq(Some(new_left)) == new_left.in_order());
                n.left = Some(new_left);
                assert forall|y: i32| link_seq(n.left).contains(y) implies y < n.value by {
                    assert(l.contains(y) || y == x);
                }
            } else if x > n.value {
                let new_right = insert_into(n.right.take(), x);
                assert(link_seq(Some(new_right)) == new_right.in_order());
                n.right = Some(new_right);
                assert forall|y: i32| link_seq(n.right).contains(y) implies n.value < y by {
                    assert(r.contains(y) || y == x);
                }
            }
            proof {
                lemma_contains_parts(link_seq(n.left), n.value, link_seq(n.right));
            }
            Box::new(n)
        },
    }
}

/// A binary search tree of coloured nodes; `None` is the empty tree.
pub struct RedBlackTree {
    pub root: Option<Box<Node>>,
}

impl RedBlackTree {
    /// The values of the tree in ascending order.
    pub open spec fn elements(&self) -> Seq<i32> {
        link_seq(self.root)
    }

    /// The search-tree order holds at every node.
    pub open spec fn well_formed(&self) -> bool {
        link_ordered(self.root)
    }

    /// The empty tree.
    pub fn new() -> (t: RedBlackTree)
        ensures
            t.well_formed(),
            t.elements().len() == 0,
    {
        RedBlackTree { root: None }
    }

    /// A fixed, perfectly balanced tree of the values 1 to 7, all black, with
    /// 4 at the root.
    pub fn new_test() -> (t: RedBlackTree)
        ensures
            t.well_formed(),
            t.elements() == seq![1i32, 2, 3, 4, 5, 6, 7],
            link_all_black(t.root),
            t.root matches Some(n) && n.value == 4,
    {
        proof {
            lemma_contains_parts(seq![1i32], 2, seq![3i32]);
            lemma_contains_parts(seq![5i32], 6, seq![7i32]);
            lemma_contains_parts(seq![1i32, 2, 3], 4, seq![5i32, 6, 7]);
            assert(seq![1i32] + seq![2i32] + seq![3i32] =~= seq![1i32, 2, 3]);
            assert(seq![5i32] + seq![6i32] + seq![7i32] =~= seq![5i32, 6, 7]);
            assert(seq![1i32, 2, 3] + seq![4i32] + seq![5i32, 6, 7] =~= seq![1i32, 2, 3, 4, 5, 6, 7]);
        }
        let node_2 = join(leaf(1, Color::Black), 2, leaf(3, Color::Black), Color::Black);
        let node_6 = join(leaf(5, Color::Black), 6, leaf(7, Color::Black), Color::Black);
        let node_4 = join(node_2, 4, node_6, Color::Black);
        let t = RedBlackTree { root: Some(node_4) };
        t
    }

    /// Adds `x` as a red leaf where the search order puts it; a value already
    /// present is left as it is. The tree is not rebalanced.
    pub fn insert(&mut self, x: i32)
        requires
            old(self).well_formed(),
        ensures
            final(self).well_formed(),
            final(self).elements().to_set() == old(self).elements().to_set().insert(x),
    {
        let ghost before = self.elements();
        let r = insert_into(self.root.take(), x);
        self.root = Some(r);
        assert(self.elements() == r.in_order());
        assert(self.elements().to_set() =~= before.to_set().insert(x));
    }

    /// The values of a well-formed tree are strictly ascending.
    pub proof fn lemma_elements_sorted(&self)
        requires
            self.well_formed(),
        ensures
            strictly_sorted(self.elements()),
    {
        lemma_link_ordered(self.root);
    }
}

} // verus!
