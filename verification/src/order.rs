use vstd::prelude::*;

verus! {

/// A priority rule injected into a heap when it is constructed.
///
/// `ranks_above(a, b)` is the mathematical relation behind the rule: it holds
/// exactly when `a` must sit above `b` in the tree. `higher_priority` decides
/// the same relation at run time.
///
/// The rule must behave as a strict ordering for the heap to deliver elements
/// in priority order; the two proof obligations state just what is needed:
/// no two elements may each outrank the other, and "does not outrank" must be
/// transitive. Both hold of any strict total order, such as `<` or `>` on
/// integers.
pub trait Priority<T>: Sized {
    /// The priority relation: true when `a` must sit above `b`.
    spec fn ranks_above(&self, a: T, b: T) -> bool;

    /// The relation is asymmetric: an element that outranks another is not
    /// outranked by it. In particular no element outranks itself.
    proof fn lemma_asymmetric(&self, a: T, b: T)
        ensures
            self.ranks_above(a, b) ==> !self.ranks_above(b, a),
    ;

    /// "Does not outrank" is transitive: if `a` does not outrank `b` and `b`
    /// does not outrank `c`, then `a` does not outrank `c`.
    proof fn lemma_outranked_transitive(&self, a: T, b: T, c: T)
        ensures
            !self.ranks_above(a, b) && !self.ranks_above(b, c) ==> !self.ranks_above(a, c),
    ;

    /// Decides the relation at run time.
    fn higher_priority(&self, a: &T, b: &T) -> (r: bool)
        ensures
            r == self.ranks_above(*a, *b),
    ;
}

/// Ascending rule on `i32`: the smaller element ranks above the larger, so a
/// heap built with it extracts its minimum first.
#[derive(Clone, Copy, Debug)]
pub struct MinFirst;

impl Priority<i32> for MinFirst {
    open spec fn ranks_above(&self, a: i32, b: i32) -> bool {
        a < b
    }

    proof fn lemma_asymmetric(&self, a: i32, b: i32) {
    }

    proof fn lemma_outranked_transitive(&self, a: i32, b: i32, c: i32) {
    }

    fn higher_priority(&self, a: &i32, b: &i32) -> (r: bool) {
        *a < *b
    }
}

/// Descending rule on `i32`: the larger element ranks above the smaller, so a
/// heap built with it extracts its maximum first.
#[derive(Clone, Copy, Debug)]
pub struct MaxFirst;

impl Priority<i32> for MaxFirst {
    open spec fn ranks_above(&self, a: i32, b: i32) -> bool {
        a > b
    }

    proof fn lemma_asymmetric(&self, a: i32, b: i32) {
    }

    proof fn lemma_outranked_transitive(&self, a: i32, b: i32, c: i32) {
    }

    fn higher_priority(&self, a: &i32, b: &i32) -> (r: bool) {
        *a > *b
    }
}

} // verus!
