//! The standard library's unstable sort, the baseline that the quicksort
//! variants are measured against.

use crate::functional::clone_all;
use crate::lemmas::{lemma_permutation_short, lemma_sorted_permutation_unique};
use crate::order::{
    antisymmetric_on, clones_exactly, permutation, sorted, total_preorder_by_ord,
};
use vstd::prelude::*;

verus! {

/// `<[T]>::sort_unstable` sorts the slice in ascending order, in place and
/// without keeping the order of equal elements; every element that was in the
/// slice is still in it afterwards. Where `Ord` for the element type is not a
/// total order it may panic or leave the elements in any order, so `requires`
/// asks for one: total, transitive, with "less" the converse of "greater",
/// and with `==`, `partial_cmp` and `cmp` in agreement.
pub assume_specification<Elem: Ord>[ <[Elem]>::sort_unstable ](slice: &mut [Elem])
    requires
        total_preorder_by_ord::<Elem>(),
    ensures
        permutation(final(slice)@, old(slice)@),
        sorted(final(slice)@),
;

/// Sorts a copy of `array` with the standard library's unstable sort.
///
/// That sort may panic, or order nothing, on an element type whose `Ord` is
/// not a total order, so the order is required to be one; the output is then
/// sorted whatever `clone` does, and a permutation of the input when `clone`
/// is exact.
pub fn quicksort_stdlib<T: Ord + Clone>(array: &[T]) -> (out: Vec<T>)
    requires
        total_preorder_by_ord::<T>(),
    ensures
        out@.len() == array@.len(),
        sorted(out@),
        clones_exactly::<T>() ==> permutation(out@, array@),
        clones_exactly::<T>() && sorted(array@) && antisymmetric_on(array@) ==> out@ == array@,
        clones_exactly::<T>() && array@.len() <= 1 ==> out@ == array@,
{
    let mut out = clone_all(array);
    let ghost copied = out@;
    out.as_mut_slice().sort_unstable();
    proof {
        vstd::seq_lib::to_multiset_len(out@);
        vstd::seq_lib::to_multiset_len(copied);
        if clones_exactly::<T>() {
            if array@.len() <= 1 {
                lemma_permutation_short(out@, array@);
            }
            if sorted(array@) && antisymmetric_on(array@) {
                lemma_sorted_permutation_unique(out@, array@);
            }
        }
    }
    out
}

} // verus!
