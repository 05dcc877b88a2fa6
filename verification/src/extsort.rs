//! Sorting through the `itertools` crate.

use vstd::prelude::*;

verus! {

/// The elements are in ascending order.
pub open spec fn sorted(s: Seq<usize>) -> bool {
    forall|i: int, j: int| 0 <= i <= j < s.len() ==> s[i] <= s[j]
}

/// Relies on itertools::sorted: the same elements, in ascending order.
#[verifier::external_body]
pub(crate) fn sorted_usizes(v: &Vec<usize>) -> (r: Vec<usize>)
    ensures
        r@.to_multiset() == v@.to_multiset(),
        r@.len() == v@.len(),
        sorted(r@),
{
    itertools::sorted(v.iter().cloned()).collect()
}

} // verus!
