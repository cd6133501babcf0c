//! Sorting by an order that the sorted type brings along.

use std::cmp::Ordering;
use vstd::prelude::*;

verus! {

/// A type whose values are ranked: of two values, one comes before the
/// other, or neither does.
pub trait Ranked: Sized {
    /// This value comes before the other.
    spec fn comes_before(self, other: Self) -> bool;

    /// Neither of the two values comes before the other.
    open spec fn ranks_with(self, other: Self) -> bool {
        !self.comes_before(other) && !other.comes_before(self)
    }

    /// Compares this value with the other: it is less if it comes before
    /// the other, greater if the other comes before it, and equal if
    /// neither comes before the other.
    fn rank_order(&self, other: &Self) -> (order: Ordering)
        ensures
            order == Ordering::Less <==> self.comes_before(*other),
            order == Ordering::Greater <==> other.comes_before(*self),
    ;

    /// The ranking is a strict weak order: no value comes before itself,
    /// the ranking is transitive, and so is ranking equally.
    proof fn lemma_ranking_is_consistent(a: Self, b: Self, c: Self)
        ensures
            !a.comes_before(a),
            a.comes_before(b) ==> !b.comes_before(a),
            a.comes_before(b) && b.comes_before(c) ==> a.comes_before(c),
            a.ranks_with(b) && b.ranks_with(c) ==> a.ranks_with(c),
    ;
}

/// No value of the sequence comes before an earlier one.
pub open spec fn is_ranked<T: Ranked>(items: Seq<T>) -> bool {
    forall|i: int, j: int|
        0 <= i < j < items.len() ==> !(#[trigger] items[j]).comes_before(#[trigger] items[i])
}

/// Sorts the items with the standard library's `sort_by` on slices, handing
/// it the comparison that the type of the items brings along. The contract
/// claims what `sort_by` documents for a comparison that is a consistent
/// order: afterwards the vector holds the same items as before, each as
/// often as before, and none comes before an earlier one.
#[verifier::external_body]
pub(crate) fn sort_ranked<T: Ranked>(items: &mut Vec<T>)
    ensures
        final(items)@.to_multiset() == old(items)@.to_multiset(),
        is_ranked(final(items)@),
{
    items.sort_by(|a, b| a.rank_order(b));
}

} // verus!
