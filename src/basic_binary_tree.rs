//! The order-statistics tree: an unbalanced binary search tree whose nodes
//! cache the size of their subtree, so that `rank` and `select` run in time
//! proportional to the height of the tree.
use vstd::prelude::*;

use crate::ordered_set::{
    is_predecessor, lemma_contains_parts, lemma_rank_bounds, lemma_rank_concat, rank_of, select_of, strictly_sorted,
    OrderedSet,
};

verus! {

/// One node; it owns its two subtrees.
pub struct Node {
    pub left: Option<Box<Node>>,
    pub right: Option<Box<Node>>,
    pub value: i32,
    /// The number of nodes in the subtree rooted here.
    pub size: usize,
}

/// The values of a subtree in order (none for no subtree).
pub open spec fn link_seq(link: Option<Box<Node>>) -> Seq<i32>
    decreases link,
{
    match link {
        None => Seq::empty(),
        Some(n) => n.in_order(),
    }
}

/// The size cached at the root of a subtree (0 for no subtree).
pub open spec fn link_size(link: Option<Box<Node>>) -> nat {
    match link {
        None => 0,
        Some(n) => n.size as nat,
    }
}

/// No subtree, or a well-formed one.
pub open spec fn link_wf(link: Option<Box<Node>>) -> bool
    decreases link,
{
    match link {
        None => true,
        Some(n) => n.wf(),
    }
}

impl Node {
    /// The values of the subtree rooted here: left subtree, this node, right subtree.
    pub open spec fn in_order(self) -> Seq<i32>
        decreases self,
    {
        link_seq(self.left) + seq![self.value] + link_seq(self.right)
    }

    /// Every node of the subtree caches `1 + size(left) + size(right)`; the
    /// values of its left subtree are below its own, those of its right
    /// subtree above.
    pub open spec fn wf(self) -> bool
        decreases self,
    {
        &&& link_wf(self.left)
        &&& link_wf(self.right)
        &&& self.size == 1 + link_size(self.left) + link_size(self.right)
        &&& forall|y: i32| link_seq(self.left).contains(y) ==> y < self.value
        &&& forall|y: i32| link_seq(self.right).contains(y) ==> self.value < y
    }
}

/// A well-formed subtree lists its values in strictly ascending order, and
/// its cached size is their number.
proof fn lemma_link_wf(link: Option<Box<Node>>)
    requires
        link_wf(link),
    ensures
        strictly_sorted(link_seq(link)),
        link_size(link) == link_seq(link).len(),
    decreases link,
{
    if let Some(n) = link {
        lemma_node_wf(*n);
    }
}

/// `lemma_link_wf`, for a node.
proof fn lemma_node_wf(n: Node)
    requires
        n.wf(),
    ensures
        strictly_sorted(n.in_order()),
        n.size == n.in_order().len(),
    decreases n,
{
    lemma_link_wf(n.left);
    lemma_link_wf(n.right);
    let l = link_seq(n.left);
    let r = link_seq(n.right);
    let s = n.in_order();
    assert forall|i: int, j: int| 0 <= i < j < s.len() implies s[i] < s[j] by {
        if i < l.len() {
            assert(s[i] == l[i] && l.contains(l[i]));
        }
        if j > l.len() {
            assert(s[j] == r[j - l.len() - 1] && r.contains(r[j - l.len() - 1]));
        }
    }
}

/// The size cached at the root of a subtree (0 for no subtree).
fn size(link: &Option<Box<Node>>) -> (r: usize)
    ensures
        r == link_size(*link),
{
    match link {
        Some(n) => n.size,
        None => 0,
    }
}

impl Node {
    /// A single-node subtree holding `x`.
    fn new(x: i32) -> (r: Box<Node>)
        ensures
            r.wf(),
            r.in_order() == seq![x],
    {
        let r = Box::new(Node { left: None, right: None, value: x, size: 1 });
        assert(r.in_order() =~= seq![x]);
        r
    }

    /// Whether `x` is in the subtree: one step down per level.
    fn member(&self, x: i32) -> (r: bool)
        requires
            self.wf(),
        ensures
            r == self.in_order().contains(x),
        decreases self,
    {
        proof {
            lemma_contains_parts(link_seq(self.left), self.value, link_seq(self.right));
        }
        if x == self.value {
            true
        } else if x < self.value {
            match &self.left {
                Some(n) => n.member(x),
                None => false,
            }
        } else {
            match &self.right {
                Some(n) => n.member(x),
                None => false,
            }
        }
    }

    /// The largest value of the subtree strictly below `x`. Where this node is
    /// below `x` it is the best candidate unless the right subtree has a better one.
    fn predecessor(&self, x: i32) -> (r: Option<i32>)
        requires
            self.wf(),
        ensures
            is_predecessor(self.in_order(), x, r),
        decreases self,
    {
        proof {
            lemma_contains_parts(link_seq(self.left), self.value, link_seq(self.right));
        }
        if x <= self.value {
            match &self.left {
                Some(n) => n.predecessor(x),
                None => None,
            }
        } else {
            let right_result = match &self.right {
                Some(n) => n.predecessor(x),
                None => None,
            };
            match right_result {
                Some(v) => Some(v),
                None => Some(self.value),
            }
        }
    }

    /// The number of values of the subtree at most `x`, read off the cached
    /// sizes along one path.
    fn rank(&self, x: i32) -> (r: usize)
        requires
            self.wf(),
        ensures
            r == rank_of(self.in_order(), x),
        decreases self,
    {
        let ghost l = link_seq(self.left);
        let ghost r = link_seq(self.right);
        proof {
            lemma_link_wf(self.left);
            lemma_link_wf(self.right);
            lemma_rank_concat(l + seq![self.value], r, x);
            lemma_rank_concat(l, seq![self.value], x);
            lemma_rank_bounds(seq![self.value], x);
            lemma_rank_bounds(l, x);
            lemma_rank_bounds(r, x);
            assert(forall|i: int| 0 <= i < l.len() ==> l.contains(l[i]));
            assert(forall|i: int| 0 <= i < r.len() ==> r.contains(r[i]));
        }
        if x < self.value {
            match &self.left {
                Some(n) => n.rank(x),
                None => 0,
            }
        } else {
            let left_size = size(&self.left);
            if x == self.value {
                left_size + 1
            } else {
                let right_rank = match &self.right {
                    Some(n) => n.rank(x),
                    None => 0,
                };
                left_size + 1 + right_rank
            }
        }
    }

    /// The value at 0-based position `j` of the subtree, found by comparing
    /// `j` with the size of the left subtree.
    fn select(&self, j: usize) -> (r: Option<i32>)
        requires
            self.wf(),
        ensures
            r == select_of(self.in_order(), j as int),
        decreases self,
    {
        proof {
            lemma_link_wf(self.left);
            lemma_link_wf(self.right);
        }
        let left_size = size(&self.left);
        if j < left_size {
            match &self.left {
                Some(n) => n.select(j),
                None => None,
            }
        } else if j == left_size {
            Some(self.value)
        } else {
            match &self.right {
                Some(n) => n.select(j - left_size - 1),
                None => None,
            }
        }
    }

    /// Adds `x` below this node as a new leaf, unless it is already present;
    /// the size of each node on the way down is then recomputed from its
    /// children, so it grows by one exactly when a leaf was added.
    fn insert(&mut self, x: i32)
        requires
            old(self).wf(),
            old(self).in_order().len() < usize::MAX,
        ensures
            final(self).wf(),
            forall|y: i32|
                final(self).in_order().contains(y) <==> (old(self).in_order().contains(y) || y
                    == x),
            final(self).in_order().len() <= old(self).in_order().len() + 1,
        decreases *old(self),
    {
        proof {
            lemma_node_wf(*self);
            lemma_link_wf(self.left);
            lemma_link_wf(self.right);
            lemma_contains_parts(link_seq(self.left), self.value, link_seq(self.right));
        }
        if x < self.value {
            match self.left.take() {
                Some(mut n) => {
                    n.insert(x);
                    self.left = Some(n);
                },
                None => {
                    self.left = Some(Node::new(x));
                    assert(link_seq(self.left)[0] == x);
                },
            }
        } else if x > self.value {
            match self.right.take() {
                Some(mut n) => {
                    n.insert(x);
                    self.right = Some(n);
                },
                None => {
                    self.right = Some(Node::new(x));
                    assert(link_seq(self.right)[0] == x);
                },
            }
        }
        proof {
            lemma_link_wf(self.left);
            lemma_link_wf(self.right);
            lemma_contains_parts(link_seq(self.left), self.value, link_seq(self.right));
        }
        self.size = 1 + size(&self.left) + size(&self.right);
    }

    /// Detaches the rightmost (largest) node of the subtree: returns what
    /// remains and the detached value.
    fn delete_rightmost(self) -> (r: (Option<Box<Node>>, i32))
        requires
            self.wf(),
        ensures
            link_wf(r.0),
            link_seq(r.0) + seq![r.1] == self.in_order(),
        decreases self,
    {
        let mut node = self;
        match node.right.take() {
            None => {
                proof {
                    assert(link_seq(node.left) + seq![node.value] =~= self.in_order());
                }
                (node.left, node.value)
            },
            Some(n) => {
                let (rest, max) = n.delete_rightmost();
                proof {
                    lemma_link_wf(node.left);
                    lemma_link_wf(rest);
                    lemma_link_wf(self.right);
                    assert(link_seq(self.right) == n.in_order());
                    assert forall|y: i32| link_seq(rest).contains(y) implies node.value < y by {
                        let i = choose|i: int| 0 <= i < link_seq(rest).len() && link_seq(rest)[i] == y;
                        assert(link_seq(self.right)[i] == y);
                        assert(link_seq(self.right).contains(y));
                    }
                }
                node.right = rest;
                node.size = 1 + size(&node.left) + size(&node.right);
                proof {
                    assert(node.in_order() + seq![max] =~= self.in_order());
                }
                (Some(Box::new(node)), max)
            },
        }
    }

    /// Removes `x` from the subtree and returns what takes its place. A node
    /// holding `x` gives way to its only child, or, with two children, to
    /// the largest value of its left subtree.
    fn delete(self, x: i32) -> (r: Option<Box<Node>>)
        requires
            self.wf(),
        ensures
            link_wf(r),
            forall|y: i32| link_seq(r).contains(y) <==> (self.in_order().contains(y) && y != x),
            link_seq(r).len() <= self.in_order().len(),
        decreases self,
    {
        proof {
            lemma_node_wf(self);
            lemma_link_wf(self.left);
            lemma_link_wf(self.right);
            lemma_contains_parts(link_seq(self.left), self.value, link_seq(self.right));
        }
        let ghost l = link_seq(self.left);
        let ghost rt = link_seq(self.right);
        let mut node = self;
        if x < node.value {
            node.left = match node.left.take() {
                Some(n) => n.delete(x),
                None => None,
            };
            proof {
                lemma_link_wf(node.left);
                lemma_contains_parts(link_seq(node.left), node.value, link_seq(node.right));
                assert forall|y: i32| link_seq(node.left).contains(y) implies y < node.value by {
                    assert(l.contains(y));
                }
            }
            node.size = 1 + size(&node.left) + size(&node.right);
            Some(Box::new(node))
        } else if x > node.value {
            node.right = match node.right.take() {
                Some(n) => n.delete(x),
                None => None,
            };
            proof {
                lemma_link_wf(node.right);
                lemma_contains_parts(link_seq(node.left), node.value, link_seq(node.right));
                assert forall|y: i32| link_seq(node.right).contains(y) implies node.value < y by {
                    assert(rt.contains(y));
                }
            }
            node.size = 1 + size(&node.left) + size(&node.right);
            Some(Box::new(node))
        } else {
            match (node.left, node.right) {
                (None, None) => None,
                (Some(left), None) => Some(left),
                (None, Some(right)) => Some(right),
                (Some(left), Some(right)) => {
                    let (new_left, pred) = left.delete_rightmost();
                    let ghost nl = link_seq(new_left);
                    proof {
                        lemma_link_wf(new_left);
                        lemma_contains_parts(nl, pred, Seq::empty());
                        assert(nl + seq![pred] + Seq::<i32>::empty() =~= l);
                        assert forall|y: i32| nl.contains(y) implies y < pred by {
                            let i = choose|i: int| 0 <= i < nl.len() && nl[i] == y;
                            assert(l[i] == y);
                            assert(l[nl.len() as int] == pred);
                        }
                        assert(l[nl.len() as int] == pred);
                        assert(l.contains(pred));
                        assert(link_wf(Some(right)));
                        assert forall|y: i32| link_seq(Some(right)).contains(y) implies pred < y by {
                            assert(rt.contains(y));
                        }
                    }
                    let new_size = size(&new_left) + right.size + 1;
                    let promoted = Node { left: new_left, right: Some(right), value: pred, size: new_size };
                    proof {
                        lemma_contains_parts(nl, pred, rt);
                    }
                    Some(Box::new(promoted))
                },
            }
        }
    }
}

/// An ordered set held in an order-statistics tree; `None` is the empty set.
pub struct BasicBinaryTree {
    pub root: Option<Box<Node>>,
}

/// In a well-formed tree the size cached at the root is the number of
/// elements, as the size cached at each node is that of its subtree.
pub proof fn lemma_root_size(t: &BasicBinaryTree)
    requires
        t.well_formed(),
    ensures
        link_size(t.root) == t.elements().len(),
{
    lemma_link_wf(t.root);
}

impl OrderedSet for BasicBinaryTree {
    open spec fn elements(&self) -> Seq<i32> {
        link_seq(self.root)
    }

    open spec fn well_formed(&self) -> bool {
        link_wf(self.root)
    }

    proof fn lemma_elements_sorted(&self) {
        lemma_link_wf(self.root);
    }

    fn new() -> (s: Self) {
        BasicBinaryTree { root: None }
    }

    fn member(&self, x: i32) -> (r: bool) {
        match &self.root {
            Some(n) => n.member(x),
            None => false,
        }
    }

    fn predecessor(&self, x: i32) -> (r: Option<i32>) {
        match &self.root {
            Some(n) => n.predecessor(x),
            None => None,
        }
    }

    fn rank(&self, x: i32) -> (r: usize) {
        match &self.root {
            Some(n) => n.rank(x),
            None => 0,
        }
    }

    fn select(&self, j: usize) -> (r: Option<i32>) {
        match &self.root {
            Some(n) => n.select(j),
            None => None,
        }
    }

    fn insert(&mut self, x: i32) {
        let ghost before = self.elements();
        match self.root.take() {
            Some(mut n) => {
                n.insert(x);
                self.root = Some(n);
            },
            None => {
                self.root = Some(Node::new(x));
                assert(self.elements()[0] == x);
            },
        }
        assert(self.elements().to_set() =~= before.to_set().insert(x));
    }

    fn delete(&mut self, x: i32) {
        let ghost before = self.elements();
        self.root = match self.root.take() {
            Some(n) => n.delete(x),
            None => None,
        };
        assert(self.elements().to_set() =~= before.to_set().remove(x));
    }
}

} // verus!
