//! Ascending order of neighbour lists.

use vstd::prelude::*;
use vstd::relations::{sorted_by, total_ordering};
use vstd::seq_lib::lemma_sorted_unique;

verus! {

/// `list` is in ascending order.
pub open spec fn ascending(list: Seq<usize>) -> bool {
    forall|i: int, j: int| 0 <= i <= j < list.len() ==> list[i] <= list[j]
}

/// An ascending list is determined by the elements it holds, counted with
/// multiplicity.
pub proof fn lemma_ascending_unique(a: Seq<usize>, b: Seq<usize>)
    requires
        ascending(a),
        ascending(b),
        a.to_multiset() == b.to_multiset(),
    ensures
        a == b,
{
    let leq = |x: usize, y: usize| x <= y;
    assert(sorted_by(a, leq));
    assert(sorted_by(b, leq));
    assert(total_ordering(leq));
    lemma_sorted_unique(a, b, leq);
}

/// Sorts `list` in place with the standard library's `sort` on slices.
///
/// Trusted: the call is not verified. The contract claims what the standard
/// library documents of `sort` for a totally ordered element type: afterwards
/// the list is in ascending order and holds the same elements as before, each
/// as often as before.
#[verifier::external_body]
pub(crate) fn sort_ascending(list: &mut Vec<usize>)
    ensures
        ascending(final(list)@),
        final(list)@.to_multiset() == old(list)@.to_multiset(),
{
    list.sort();
}

} // verus!
