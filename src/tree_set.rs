//! An ordered set in a plain binary search tree: no balancing and no cached
//! sizes, so `rank` and `select` count the nodes of the subtrees they pass.
use vstd::prelude::*;

use crate::ordered_set::{
    is_predecessor, lemma_contains_parts, lemma_rank_bounds, lemma_rank_concat, rank_of, select_of,
    strictly_sorted, OrderedSet,
};

verus! {

/// One node of the plain tree; it owns its two subtrees.
struct Node {
    left: Option<Box<Node>>,
    right: Option<Box<Node>>,
    value: i32,
}

/// The values of a subtree in order (none for no subtree).
spec fn link_seq(link: Option<Box<Node>>) -> Seq<i32>
    decreases link,
{
    match link {
        None => Seq::empty(),
        Some(n) => n.in_order(),
    }
}

/// No subtree, or a well-formed one.
spec fn link_wf(link: Option<Box<Node>>) -> bool
    decreases link,
{
    match link {
        None => true,
        Some(n) => n.wf(),
    }
}

impl Node {
    /// The values of the subtree rooted here: left subtree, this node, right subtree.
    spec fn in_order(self) -> Seq<i32>
        decreases self,
    {
        link_seq(self.left) + seq![self.value] + link_seq(self.right)
    }

    /// The values of the left subtree of every node are below its own, those
    /// of its right subtree above.
    spec fn wf(self) -> bool
        decreases self,
    {
        &&& link_wf(self.left)
        &&& link_wf(self.right)
        &&& forall|y: i32| link_seq(self.left).contains(y) ==> y < self.value
        &&& forall|y: i32| link_seq(self.right).contains(y) ==> self.value < y
    }
}

/// A well-formed subtree lists its values in strictly ascending order.
proof fn lemma_link_wf(link: Option<Box<Node>>)
    requires
        link_wf(link),
    ensures
        strictly_sorted(link_seq(link)),
    decreases link,
{
    if let Some(n) = link {
        lemma_node_wf(*n);
    }
}

/// `lemma_link_wf`, for a node.
proof fn lemma_node_wf(n: Node)
    requires
        n.wf(),
    ensures
        strictly_sorted(n.in_order()),
    decreases n,
{
    lemma_link_wf(n.left);
    lemma_link_wf(n.right);
    let l = link_seq(n.left);
    let r = link_seq(n.right);
    let s = n.in_order();
    assert forall|i: int, j: int| 0 <= i < j < s.len() implies s[i] < s[j] by {
        if i < l.len() {
            assert(s[i] == l[i] && l.contains(l[i]));
        }
        if j > l.len() {
            assert(s[j] == r[j - l.len() - 1] && r.contains(r[j - l.len() - 1]));
        }
    }
}

/// The number of nodes of a subtree, counted one by one.
fn count(link: &Option<Box<Node>>) -> (r: usize)
    requires
        link_seq(*link).len() <= usize::MAX,
    ensures
        r == link_seq(*link).len(),
    decreases link,
{
    match link {
        Some(n) => count(&n.left) + 1 + count(&n.right),
        None => 0,
    }
}

impl Node {
    /// A single-node subtree holding `x`.
    fn new(x: i32) -> (r: Box<Node>)
        ensures
            r.wf(),
            r.in_order() == seq![x],
    {
        let r = Box::new(Node { left: None, right: None, value: x });
        assert(r.in_order() =~= seq![x]);
        r
    }

    /// Whether `x` is in the subtree.
    fn member(&self, x: i32) -> (r: bool)
        requires
            self.wf(),
        ensures
            r == self.in_order().contains(x),
        decreases self,
    {
        proof {
            lemma_contains_parts(link_seq(self.left), self.value, link_seq(self.right));
        }
        if x == self.value {
            true
        } else if x < self.value {
            match &self.left {
                Some(n) => n.member(x),
                None => false,
            }
        } else {
            match &self.right {
                Some(n) => n.member(x),
                None => false,
            }
        }
    }

    /// The largest value of the subtree strictly below `x`.
    fn predecessor(&self, x: i32) -> (r: Option<i32>)
        requires
            self.wf(),
        ensures
            is_predecessor(self.in_order(), x, r),
        decreases self,
    {
        proof {
            lemma_contains_parts(link_seq(self.left), self.value, link_seq(self.right));
        }
        if x <= self.value {
            match &self.left {
                Some(n) => n.predecessor(x),
                None => None,
            }
        } else {
            let right_result = match &self.right {
                Some(n) => n.predecessor(x),
                None => None,
            };
            match right_result {
                Some(v) => Some(v),
                None => Some(self.value),
            }
        }
    }

    /// The number of values of the subtree at most `x`; the left subtree is
    /// counted in full wherever this node is at most `x`.
    fn rank(&self, x: i32) -> (r: usize)
        requires
            self.wf(),
            self.in_order().len() <= usize::MAX,
        ensures
            r == rank_of(self.in_order(), x),
        decreases self,
    {
        let ghost l = link_seq(self.left);
        let ghost r = link_seq(self.right);
        proof {
            lemma_rank_concat(l + seq![self.value], r, x);
            lemma_rank_concat(l, seq![self.value], x);
            lemma_rank_bounds(seq![self.value], x);
            lemma_rank_bounds(l, x);
            lemma_rank_bounds(r, x);
            assert(forall|i: int| 0 <= i < l.len() ==> l.contains(l[i]));
            assert(forall|i: int| 0 <= i < r.len() ==> r.contains(r[i]));
        }
        if x < self.value {
            match &self.left {
                Some(n) => n.rank(x),
                None => 0,
            }
        } else {
            let left_count = count(&self.left);
            if x == self.value {
                left_count + 1
            } else {
                let right_rank = match &self.right {
                    Some(n) => n.rank(x),
                    None => 0,
                };
                left_count + 1 + right_rank
            }
        }
    }

    /// The value at 0-based position `j` of the subtree, found by comparing
    /// `j` with the number of nodes of the left subtree.
    fn select(&self, j: usize) -> (r: Option<i32>)
        requires
            self.in_order().len() <= usize::MAX,
        ensures
            r == select_of(self.in_order(), j as int),
        decreases self,
    {
        let left_count = count(&self.left);
        if j < left_count {
            match &self.left {
                Some(n) => n.select(j),
                None => None,
            }
        } else if j == left_count {
            Some(self.value)
        } else {
            match &self.right {
                Some(n) => n.select(j - left_count - 1),
                None => None,
            }
        }
    }

    /// Adds `x` below this node as a new leaf, unless it is already present.
    fn insert(&mut self, x: i32)
        requires
            old(self).wf(),
        ensures
            final(self).wf(),
            forall|y: i32|
                final(self).in_order().contains(y) <==> (old(self).in_order().contains(y) || y
                    == x),
            final(self).in_order().len() <= old(self).in_order().len() + 1,
        decreases *old(self),
    {
        proof {
            lemma_contains_parts(link_seq(self.left), self.value, link_seq(self.right));
        }
        if x < self.value {
            match self.left.take() {
                Some(mut n) => {
                    n.insert(x);
                    self.left = Some(n);
                },
                None => {
                    self.left = Some(Node::new(x));
                    assert(link_seq(self.left)[0] == x);
                },
            }
        } else if x > self.value {
            match self.right.take() {
                Some(mut n) => {
                    n.insert(x);
                    self.right = Some(n);
                },
                None => {
                    self.right = Some(Node::new(x));
                    assert(link_seq(self.right)[0] == x);
                },
            }
        }
        proof {
            lemma_contains_parts(link_seq(self.left), self.value, link_seq(self.right));
        }
    }

    /// Detaches the rightmost (largest) node of the subtree: returns what
    /// remains and the detached value.
    fn delete_rightmost(self) -> (r: (Option<Box<Node>>, i32))
        requires
            self.wf(),
        ensures
            link_wf(r.0),
            link_seq(r.0) + seq![r.1] == self.in_order(),
        decreases self,
    {
        let mut node = self;
        match node.right.take() {
            None => {
                proof {
                    assert(link_seq(node.left) + seq![node.value] =~= self.in_order());
                }
                (node.left, node.value)
            },
            Some(n) => {
                let (rest, max) = n.delete_rightmost();
                proof {
                    assert(link_seq(self.right) == n.in_order());
                    assert forall|y: i32| link_seq(rest).contains(y) implies node.value < y by {
                        let i = choose|i: int| 0 <= i < link_seq(rest).len() && link_seq(rest)[i] == y;
                        assert(link_seq(self.right)[i] == y);
                        assert(link_seq(self.right).contains(y));
                    }
                }
                node.right = rest;
                proof {
                    assert(node.in_order() + seq![max] =~= self.in_order());
                }
                (Some(Box::new(node)), max)
            },
        }
    }

    /// Removes `x` from the subtree and returns what takes its place.
    fn delete(self, x: i32) -> (r: Option<Box<Node>>)
        requires
            self.wf(),
        ensures
            link_wf(r),
            forall|y: i32| link_seq(r).contains(y) <==> (self.in_order().contains(y) && y != x),
            link_seq(r).len() <= self.in_order().len(),
        decreases self,
    {
        proof {
            lemma_node_wf(self);
            lemma_contains_parts(link_seq(self.left), self.value, link_seq(self.right));
        }
        let ghost l = link_seq(self.left);
        let ghost rt = link_seq(self.right);
        let mut node = self;
        if x < node.value {
            node.left = match node.left.take() {
                Some(n) => n.delete(x),
                None => None,
            };
            proof {
                lemma_contains_parts(link_seq(node.left), node.value, link_seq(node.right));
                assert forall|y: i32| link_seq(node.left).contains(y) implies y < node.value by {
                    assert(l.contains(y));
                }
            }
            Some(Box::new(node))
        } else if x > node.value {
            node.right = match node.right.take() {
                Some(n) => n.delete(x),
                None => None,
            };
            proof {
                lemma_contains_parts(link_seq(node.left), node.value, link_seq(node.right));
                assert forall|y: i32| link_seq(node.right).contains(y) implies node.value < y by {
                    assert(rt.contains(y));
                }
            }
            Some(Box::new(node))
        } else {
            match (node.left, node.right) {
                (None, None) => None,
                (Some(left), None) => Some(left),
                (None, Some(right)) => Some(right),
                (Some(left), Some(right)) => {
                    let (new_left, pred) = left.delete_rightmost();
                    let ghost nl = link_seq(new_left);
                    proof {
                        lemma_link_wf(Some(left));
                        lemma_contains_parts(nl, pred, Seq::empty());
                        assert(nl + seq![pred] + Seq::<i32>::empty() =~= l);
                        assert forall|y: i32| nl.contains(y) implies y < pred by {
                            let i = choose|i: int| 0 <= i < nl.len() && nl[i] == y;
                            assert(l[i] == y);
                            assert(l[nl.len() as int] == pred);
                        }
                        assert(l[nl.len() as int] == pred);
                        assert(l.contains(pred));
                        assert forall|y: i32| link_seq(Some(right)).contains(y) implies pred < y by {
                            assert(rt.contains(y));
                        }
                        lemma_contains_parts(nl, pred, rt);
                    }
                    Some(Box::new(Node { left: new_left, right: Some(right), value: pred }))
                },
            }
        }
    }
}

/// An ordered set held in a plain binary search tree.
pub struct BasicBinaryTreeSet {
    root: Option<Box<Node>>,
}

impl OrderedSet for BasicBinaryTreeSet {
    closed spec fn elements(&self) -> Seq<i32> {
        link_seq(self.root)
    }

    /// The tree is ordered, and its node count fits a `usize`.
    closed spec fn well_formed(&self) -> bool {
        link_wf(self.root) && link_seq(self.root).len() <= usize::MAX
    }

    proof fn lemma_elements_sorted(&self) {
        lemma_link_wf(self.root);
    }

    fn new() -> (s: Self) {
        BasicBinaryTreeSet { root: None }
    }

    fn member(&self, x: i32) -> (r: bool) {
        match &self.root {
            Some(n) => n.member(x),
            None => false,
        }
    }

    fn predecessor(&self, x: i32) -> (r: Option<i32>) {
        match &self.root {
            Some(n) => n.predecessor(x),
            None => None,
        }
    }

    fn rank(&self, x: i32) -> (r: usize) {
        match &self.root {
            Some(n) => n.rank(x),
            None => 0,
        }
    }

    fn select(&self, j: usize) -> (r: Option<i32>) {
        match &self.root {
            Some(n) => n.select(j),
            None => None,
        }
    }

    fn insert(&mut self, x: i32) {
        let ghost before = self.elements();
        match self.root.take() {
            Some(mut n) => {
                n.insert(x);
                self.root = Some(n);
            },
            None => {
                self.root = Some(Node::new(x));
                assert(self.elements()[0] == x);
            },
        }
        assert(self.elements().to_set() =~= before.to_set().insert(x));
    }

    fn delete(&mut self, x: i32) {
        let ghost before = self.elements();
        self.root = match self.root.take() {
            Some(n) => n.delete(x),
            None => None,
        };
        assert(self.elements().to_set() =~= before.to_set().remove(x));
    }
}

} // verus!
