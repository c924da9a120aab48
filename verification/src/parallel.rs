//! The sort whose filtering passes run on a work-stealing thread pool.

use crate::functional::{clone_all, concat_around, quicksort_result};
use crate::lemmas::{
    lemma_permutation_members, lemma_sorted_permutation_unique, lemma_two_filters_sort,
};
use crate::order::{
    above, antisymmetric_on, at_most, clones_exactly, comparable, compares_by_model, is_above,
    is_at_most, permutation, sorted, total_preorder,
};
use rayon::iter::{IntoParallelRefIterator, ParallelIterator};
use vstd::prelude::*;
use vstd::slice::slice_subrange;

verus! {

/// Filters clones of `items` twice on rayon's thread pool: once for the
/// elements that exceed the pivot, once for those that are at most it.
///
/// Each pass is `par_iter().cloned().filter(..).collect()`. rayon's `filter`
/// keeps the items for which the closure returns `true`, and collecting into
/// a `Vec` joins the pieces that the workers produce left to right, so each
/// result holds the kept items in the order of `items`, as the sequential
/// filter would. The closures call [`is_above`] and [`is_at_most`].
#[verifier::external_body]
fn par_filter_around<T: PartialOrd + Clone + Sync + Send>(items: &[T], pivot: &T) -> (parts: (
    Vec<T>,
    Vec<T>,
))
    ensures
        parts.0@.len() <= items@.len(),
        parts.1@.len() <= items@.len(),
        clones_exactly::<T>() && compares_by_model::<T>() ==> parts.0@ == items@.filter(
            above(*pivot),
        ),
        clones_exactly::<T>() && compares_by_model::<T>() ==> parts.1@ == items@.filter(
            at_most(*pivot),
        ),
{
    let higher: Vec<T> = items.par_iter().cloned().filter(|x| is_above(x, pivot)).collect();
    let lower: Vec<T> = items.par_iter().cloned().filter(|x| is_at_most(x, pivot)).collect();
    (higher, lower)
}

/// Sorts as [`quicksort`](crate::functional::quicksort) does, with the two
/// filtering passes of every step spread over the available hardware threads.
///
/// The passes only read the input, and the parts are always joined as lower
/// part, pivot, higher part, so the result does not depend on how the work
/// was scheduled: it is `quicksort_result`, as for the sequential sort.
pub fn quicksort_par<T: PartialOrd + Clone + Sync + Send>(array: &[T]) -> (out: Vec<T>)
    ensures
        clones_exactly::<T>() && compares_by_model::<T>() ==> out@ == quicksort_result(array@),
        array@.len() <= 1 ==> out@.len() == array@.len(),
        clones_exactly::<T>() && comparable::<T>() ==> out@.len() == array@.len(),
        clones_exactly::<T>() && comparable::<T>() ==> permutation(out@, array@),
        clones_exactly::<T>() && total_preorder::<T>() ==> sorted(out@),
        clones_exactly::<T>() && total_preorder::<T>() && sorted(array@) && antisymmetric_on(
            array@,
        ) ==> out@ == array@,
        clones_exactly::<T>() && array@.len() <= 1 ==> out@ == array@,
    decreases array@.len(),
{
    if array.len() <= 1 {
        return clone_all(array);
    }
    let pivot = &array[0];
    let tail = slice_subrange(array, 1, array.len());
    let (higher, lower) = par_filter_around(tail, pivot);
    let sorted_lower = quicksort_par(lower.as_slice());
    let sorted_higher = quicksort_par(higher.as_slice());
    let out = concat_around(sorted_lower.as_slice(), pivot, sorted_higher.as_slice());
    proof {
        assert(tail@ =~= array@.remove(0));
        if clones_exactly::<T>() && comparable::<T>() {
            lemma_two_filters_sort(array@, lower@, higher@, sorted_lower@, sorted_higher@);
            lemma_permutation_members(out@, array@);
            if total_preorder::<T>() && sorted(array@) && antisymmetric_on(array@) {
                lemma_sorted_permutation_unique(out@, array@);
            }
        }
    }
    out
}

} // verus!
