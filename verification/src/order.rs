//! Ordering candidates by score, and the partial partition that selection
//! rests on.

use crate::storage::{DataStorage, IndexStorage};
use core::cmp::Ordering;
use vstd::prelude::*;

verus! {

/// Orders two scored columns so that the higher score comes first.
pub fn by_score_descending<T: DataStorage, J: IndexStorage>(a: &(J, T), b: &(J, T)) -> (o:
    Ordering)
    ensures
        o == Ordering::Less <==> b.1.value() < a.1.value(),
        o == Ordering::Greater <==> a.1.value() < b.1.value(),
{
    if b.1.less_than(&a.1) {
        Ordering::Less
    } else if a.1.less_than(&b.1) {
        Ordering::Greater
    } else {
        Ordering::Equal
    }
}

/// `slice::select_nth_unstable_by` of the standard library, with
/// `by_score_descending` as the comparator. It reorders `v` in place. The
/// contract claims what its documentation states: the outcome is a
/// rearrangement of the input, and no element before `index` sorts after an
/// element at or behind `index`, which for this comparator means that none of
/// them has a lower score. The call panics for an `index` that is not a
/// position of `v`, so such an `index` is left out.
#[verifier::external_body]
pub(crate) fn partition_at<T: DataStorage, J: IndexStorage>(v: &mut Vec<(J, T)>, index: usize)
    requires
        index < old(v)@.len(),
    ensures
        final(v)@.to_multiset() == old(v)@.to_multiset(),
        forall|i: int, j: int|
            #![trigger final(v)@[i], final(v)@[j]]
            0 <= i < index <= j < final(v)@.len() ==> final(v)@[i].1.value() >= final(v)@[j].1.value(),
{
    v.select_nth_unstable_by(index, |a, b| by_score_descending(a, b));
}

} // verus!
