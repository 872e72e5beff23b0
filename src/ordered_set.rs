//! The ordered-set interface and the mathematical vocabulary of its contracts.
//!
//! Every implementation is viewed as a strictly increasing sequence of `i32`:
//! the stored values in ascending order, each once.
use vstd::prelude::*;

verus! {

/// `s` is in strictly ascending order (so it holds no value twice).
pub open spec fn strictly_sorted(s: Seq<i32>) -> bool {
    forall|i: int, j: int| 0 <= i < j < s.len() ==> s[i] < s[j]
}

/// The number of elements of `s` that are less than or equal to `x`.
pub open spec fn rank_of(s: Seq<i32>, x: i32) -> nat
    decreases s.len(),
{
    if s.len() == 0 {
        0
    } else {
        rank_of(s.drop_last(), x) + (if s.last() <= x { 1nat } else { 0nat })
    }
}

/// Counting splits over concatenation.
pub proof fn lemma_rank_concat(a: Seq<i32>, b: Seq<i32>, x: i32)
    ensures
        rank_of(a + b, x) == rank_of(a, x) + rank_of(b, x),
    decreases b.len(),
{
    if b.len() > 0 {
        assert((a + b).drop_last() =~= a + b.drop_last());
        lemma_rank_concat(a, b.drop_last(), x);
    } else {
        assert(a + b =~= a);
    }
}

/// A sequence of values all at most `x` counts in full; one of values all
/// above `x` counts nothing.
pub proof fn lemma_rank_bounds(s: Seq<i32>, x: i32)
    ensures
        rank_of(s, x) <= s.len(),
        (forall|i: int| 0 <= i < s.len() ==> s[i] <= x) ==> rank_of(s, x) == s.len(),
        (forall|i: int| 0 <= i < s.len() ==> x < s[i]) ==> rank_of(s, x) == 0,
    decreases s.len(),
{
    if s.len() > 0 {
        lemma_rank_bounds(s.drop_last(), x);
        assert(forall|i: int| 0 <= i < s.len() - 1 ==> s.drop_last()[i] == s[i]);
    }
}

/// Where the first `k` elements of `s` are at most `x` and the rest above,
/// `k` elements count.
pub proof fn lemma_rank_split(s: Seq<i32>, x: i32, k: int)
    requires
        0 <= k <= s.len(),
        forall|i: int| 0 <= i < k ==> s[i] <= x,
        forall|i: int| k <= i < s.len() ==> x < s[i],
    ensures
        rank_of(s, x) == k,
{
    let a = s.subrange(0, k);
    let b = s.subrange(k, s.len() as int);
    assert(s =~= a + b);
    lemma_rank_concat(a, b, x);
    lemma_rank_bounds(a, x);
    lemma_rank_bounds(b, x);
}

/// The values of `l`, then `v`, then those of `r` hold exactly the values of
/// the three parts.
pub proof fn lemma_contains_parts(l: Seq<i32>, v: i32, r: Seq<i32>)
    ensures
        forall|y: i32|
            #![trigger (l + seq![v] + r).contains(y)]
            (l + seq![v] + r).contains(y) <==> (l.contains(y) || y == v || r.contains(y)),
{
    let s = l + seq![v] + r;
    assert forall|y: i32| s.contains(y) <==> (l.contains(y) || y == v || r.contains(y)) by {
        if s.contains(y) {
            let i = choose|i: int| 0 <= i < s.len() && s[i] == y;
            if i < l.len() {
                assert(l[i] == y);
            } else if i > l.len() {
                assert(r[i - l.len() - 1] == y);
            }
        }
        if l.contains(y) {
            let i = choose|i: int| 0 <= i < l.len() && l[i] == y;
            assert(s[i] == y);
        }
        if y == v {
            assert(s[l.len() as int] == y);
        }
        if r.contains(y) {
            let i = choose|i: int| 0 <= i < r.len() && r[i] == y;
            assert(s[l.len() + 1 + i] == y);
        }
    }
}

/// The element at 0-based position `j` of `s`, if there is one.
pub open spec fn select_of(s: Seq<i32>, j: int) -> Option<i32> {
    if 0 <= j < s.len() {
        Some(s[j])
    } else {
        None
    }
}

/// `r` is the largest element of `s` strictly below `x`, or `None` when no
/// element of `s` is below `x`.
pub open spec fn is_predecessor(s: Seq<i32>, x: i32, r: Option<i32>) -> bool {
    match r {
        Some(v) => s.contains(v) && v < x && forall|w: i32| s.contains(w) && w < x ==> w <= v,
        None => forall|w: i32| s.contains(w) ==> x <= w,
    }
}

/// An ordered set of `i32` values.
///
/// `elements` views the set as its values in ascending order; `well_formed`
/// is the implementation's internal invariant, which every operation keeps.
pub trait OrderedSet: Sized {
    spec fn elements(&self) -> Seq<i32>;

    spec fn well_formed(&self) -> bool;

    /// The elements of a well-formed set are strictly ascending.
    proof fn lemma_elements_sorted(&self)
        requires
            self.well_formed(),
        ensures
            strictly_sorted(self.elements()),
    ;

    /// The empty set.
    fn new() -> (s: Self)
        ensures
            s.well_formed(),
            s.elements().len() == 0,
    ;

    /// Whether `x` is in the set.
    fn member(&self, x: i32) -> (r: bool)
        requires
            self.well_formed(),
        ensures
            r == self.elements().contains(x),
    ;

    /// The largest element strictly below `x`, if any.
    fn predecessor(&self, x: i32) -> (r: Option<i32>)
        requires
            self.well_formed(),
        ensures
            is_predecessor(self.elements(), x, r),
    ;

    /// The number of elements less than or equal to `x`.
    fn rank(&self, x: i32) -> (r: usize)
        requires
            self.well_formed(),
        ensures
            r == rank_of(self.elements(), x),
    ;

    /// The element with 0-based rank `j` (the `j + 1`-th smallest), if any.
    fn select(&self, j: usize) -> (r: Option<i32>)
        requires
            self.well_formed(),
        ensures
            r == select_of(self.elements(), j as int),
    ;

    /// Adds `x`; a value already present is left as it is.
    fn insert(&mut self, x: i32)
        requires
            old(self).well_formed(),
            old(self).elements().len() < usize::MAX,
        ensures
            final(self).well_formed(),
            final(self).elements().to_set() == old(self).elements().to_set().insert(x),
    ;

    /// Removes `x`; an absent value leaves the set unchanged.
    fn delete(&mut self, x: i32)
        requires
            old(self).well_formed(),
        ensures
            final(self).well_formed(),
            final(self).elements().to_set() == old(self).elements().to_set().remove(x),
    ;
}

/// Select then rank: the element of 0-based rank `j` has exactly `j + 1`
/// elements at or below it.
pub proof fn lemma_rank_of_select<S: OrderedSet>(set: &S, j: usize)
    requires
        set.well_formed(),
        j < set.elements().len(),
    ensures
        select_of(set.elements(), j as int) is Some,
        rank_of(set.elements(), select_of(set.elements(), j as int).unwrap()) == j + 1,
{
    let s = set.elements();
    set.lemma_elements_sorted();
    lemma_rank_split(s, s[j as int], j + 1);
}

/// Rank then select: an element `x` of the set has rank at least 1, and the
/// element of 0-based rank `rank(x) - 1` is `x` itself.
pub proof fn lemma_select_of_rank<S: OrderedSet>(set: &S, x: i32)
    requires
        set.well_formed(),
        set.elements().contains(x),
    ensures
        rank_of(set.elements(), x) >= 1,
        select_of(set.elements(), rank_of(set.elements(), x) - 1) == Some(x),
{
    let s = set.elements();
    set.lemma_elements_sorted();
    let k = choose|k: int| 0 <= k < s.len() && s[k] == x;
    lemma_rank_split(s, x, k + 1);
}

/// Once `x` has been inserted, it is a member.
pub proof fn lemma_member_after_insert<S: OrderedSet>(before: &S, after: &S, x: i32)
    requires
        after.elements().to_set() == before.elements().to_set().insert(x),
    ensures
        after.elements().contains(x),
{
    assert(after.elements().to_set().contains(x));
}

/// Once `x` has been deleted, it is no member, whether or not it was one before.
pub proof fn lemma_not_member_after_delete<S: OrderedSet>(before: &S, after: &S, x: i32)
    requires
        after.elements().to_set() == before.elements().to_set().remove(x),
    ensures
        !after.elements().contains(x),
{
    assert(!after.elements().to_set().contains(x));
}

/// The rank of the largest element is the number of elements.
pub proof fn lemma_rank_of_max<S: OrderedSet>(set: &S, m: i32)
    requires
        set.well_formed(),
        set.elements().contains(m),
        forall|w: i32| set.elements().contains(w) ==> w <= m,
    ensures
        rank_of(set.elements(), m) == set.elements().len(),
{
    let s = set.elements();
    assert(forall|i: int| 0 <= i < s.len() ==> s.contains(s[i]));
    lemma_rank_bounds(s, m);
}

} // verus!
