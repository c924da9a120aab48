//! The in-place sort.

use crate::lemmas::{
    lemma_permutation_assembled, lemma_sorted_assembled, lemma_sorted_permutation_unique,
};
use crate::order::{antisymmetric_on, leq, permutation, sorted, total_preorder};
use crate::partition::partition;
use vstd::prelude::*;

verus! {

/// Sorts `arr` in place.
///
/// The slice is partitioned around a randomly drawn pivot, and the part
/// before the pivot and the part after it are sorted the same way; the pivot
/// itself already stands where it belongs. Elements are only ever swapped, so
/// no storage is used beyond the recursion stack, and the result is a
/// permutation of the input whatever the comparison does.
pub fn quicksort_mut<T: PartialOrd + Clone>(arr: &mut [T])
    ensures
        final(arr)@.len() == old(arr)@.len(),
        permutation(final(arr)@, old(arr)@),
        total_preorder::<T>() ==> sorted(final(arr)@),
        total_preorder::<T>() && sorted(old(arr)@) && antisymmetric_on(old(arr)@) ==> final(arr)@
            == old(arr)@,
        old(arr)@.len() <= 1 ==> final(arr)@ == old(arr)@,
    decreases old(arr)@.len(),
{
    if arr.len() <= 1 {
        return;
    }
    let pivot_index: usize = partition(arr);
    let ghost parted = arr@;
    let ghost lo = parted.subrange(0, pivot_index as int);
    let ghost hi = parted.subrange(pivot_index + 1, parted.len() as int);
    let ghost pivot = parted[pivot_index as int];
    let (left, rest) = arr.split_at_mut(pivot_index);
    quicksort_mut(left);
    let (middle, right) = rest.split_at_mut(1);
    quicksort_mut(right);
    proof {
        let lo2 = left@;
        let hi2 = right@;
        assert(middle@ =~= seq![pivot]);
        assert(hi =~= parted.subrange(pivot_index as int, parted.len() as int).subrange(
            1,
            parted.len() - pivot_index,
        ));
        assert(parted.remove(pivot_index as int) =~= lo + hi);
        assert(arr@ =~= lo2.push(pivot) + hi2);
        lemma_permutation_assembled(parted, pivot_index as int, lo, hi, lo2, hi2);
        if total_preorder::<T>() {
            assert forall|i: int| 0 <= i < lo.len() implies leq(#[trigger] lo[i], pivot) by {
                assert(lo[i] == parted[i]);
            }
            assert forall|i: int| 0 <= i < hi.len() implies leq(pivot, #[trigger] hi[i]) by {
                assert(hi[i] == parted[pivot_index + 1 + i]);
                assert(!leq(hi[i], pivot));
            }
            lemma_sorted_assembled(lo, hi, lo2, hi2, pivot);
            if sorted(old(arr)@) && antisymmetric_on(old(arr)@) {
                lemma_sorted_permutation_unique(arr@, old(arr)@);
            }
        }
    }
}

} // verus!
