//! An ordered set held in a sorted vector, searched by linear scans.
use vstd::prelude::*;

use crate::ordered_set::{is_predecessor, lemma_rank_split, rank_of, select_of, strictly_sorted, OrderedSet};

verus! {

/// An ordered set whose values sit in a vector in strictly ascending order.
pub struct DynamicArraySet {
    pub values: Vec<i32>,
}

impl DynamicArraySet {
    /// The position of the first value not below `x` (the length if none).
    fn lower_bound(&self, x: i32) -> (r: usize)
        requires
            strictly_sorted(self.values@),
        ensures
            r <= self.values@.len(),
            forall|k: int| 0 <= k < r ==> self.values@[k] < x,
            forall|k: int| r <= k < self.values@.len() ==> x <= self.values@[k],
    {
        let mut i: usize = 0;
        while i < self.values.len() && self.values[i] < x
            invariant
                i <= self.values@.len(),
                strictly_sorted(self.values@),
                forall|k: int| 0 <= k < i ==> self.values@[k] < x,
            decreases self.values@.len() - i,
        {
            i = i + 1;
        }
        i
    }
}

impl OrderedSet for DynamicArraySet {
    open spec fn elements(&self) -> Seq<i32> {
        self.values@
    }

    open spec fn well_formed(&self) -> bool {
        strictly_sorted(self.values@)
    }

    proof fn lemma_elements_sorted(&self) {
    }

    fn new() -> (s: Self) {
        DynamicArraySet { values: Vec::new() }
    }

    fn member(&self, x: i32) -> (r: bool) {
        let mut i: usize = 0;
        while i < self.values.len()
            invariant
                i <= self.values@.len(),
                forall|k: int| 0 <= k < i ==> self.values@[k] != x,
            decreases self.values@.len() - i,
        {
            if self.values[i] == x {
                return true;
            }
            i = i + 1;
        }
        false
    }

    fn predecessor(&self, x: i32) -> (r: Option<i32>) {
        let i = self.lower_bound(x);
        let s = Ghost(self.values@);
        if i == 0 {
            assert forall|w: i32| s@.contains(w) implies x <= w by {
                let k = choose|k: int| 0 <= k < s@.len() && s@[k] == w;
            }
            None
        } else {
            let v = self.values[i - 1];
            assert(s@.contains(v) && s@[i - 1] == v);
            assert forall|w: i32| s@.contains(w) && w < x implies w <= v by {
                let k = choose|k: int| 0 <= k < s@.len() && s@[k] == w;
                if k > i - 1 {
                    assert(x <= s@[k]);
                }
            }
            Some(v)
        }
    }

    fn rank(&self, x: i32) -> (r: usize) {
        let mut i: usize = 0;
        while i < self.values.len() && self.values[i] <= x
            invariant
                i <= self.values@.len(),
                strictly_sorted(self.values@),
                forall|k: int| 0 <= k < i ==> self.values@[k] <= x,
            decreases self.values@.len() - i,
        {
            i = i + 1;
        }
        proof {
            lemma_rank_split(self.values@, x, i as int);
        }
        i
    }

    fn select(&self, j: usize) -> (r: Option<i32>) {
        if j < self.values.len() {
            Some(self.values[j])
        } else {
            None
        }
    }

    fn insert(&mut self, x: i32) {
        let idx = self.lower_bound(x);
        if idx < self.values.len() && self.values[idx] == x {
            assert(self.values@.to_set() =~= self.values@.to_set().insert(x));
            return;
        }
        let ghost s = self.values@;
        self.values.insert(idx, x);
        let ghost t = self.values@;
        assert(t[idx as int] == x);
        assert forall|y: i32| t.contains(y) <==> (s.contains(y) || y == x) by {
            if t.contains(y) {
                let k = choose|k: int| 0 <= k < t.len() && t[k] == y;
                if k < idx {
                    assert(s[k] == y);
                } else if k > idx {
                    assert(s[k - 1] == y);
                }
            }
            if s.contains(y) {
                let k = choose|k: int| 0 <= k < s.len() && s[k] == y;
                if k < idx {
                    assert(t[k] == y);
                } else {
                    assert(t[k + 1] == y);
                }
            }
        }
        assert(t.to_set() =~= s.to_set().insert(x));
    }

    fn delete(&mut self, x: i32) {
        let idx = self.lower_bound(x);
        let ghost s = self.values@;
        if idx < self.values.len() && self.values[idx] == x {
            self.values.remove(idx);
            let ghost t = self.values@;
            assert forall|y: i32| t.contains(y) <==> (s.contains(y) && y != x) by {
                if t.contains(y) {
                    let k = choose|k: int| 0 <= k < t.len() && t[k] == y;
                    if k < idx {
                        assert(s[k] == y);
                    } else {
                        assert(s[k + 1] == y);
                    }
                }
                if s.contains(y) && y != x {
                    let k = choose|k: int| 0 <= k < s.len() && s[k] == y;
                    if k < idx {
                        assert(t[k] == y);
                    } else {
                        assert(t[k - 1] == y);
                    }
                }
            }
            assert(t.to_set() =~= s.to_set().remove(x));
        } else {
            assert forall|y: i32| s.contains(y) implies y != x by {
                let k = choose|k: int| 0 <= k < s.len() && s[k] == y;
            }
            assert(s.to_set() =~= s.to_set().remove(x));
        }
    }
}

} // verus!
