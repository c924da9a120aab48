//! The sorts that leave their input untouched and build a new vector.

use crate::lemmas::{
    lemma_permutation_members, lemma_permutation_push, lemma_sorted_permutation_unique,
    lemma_split_above_sorts, lemma_split_around_sorts, lemma_two_filters_sort,
};
use crate::order::{
    above, antisymmetric_on, at_most, clones_exactly, comparable, compares_by_model, exceeds,
    is_above, is_at_most, leq, not_above, not_at_most, permutation, sorted, total_preorder,
};
use crate::partition::random_index;
use vstd::prelude::*;
use vstd::seq_lib::*;
use vstd::slice::slice_subrange;

verus! {

/// What sorting around the first element returns: the sorted elements of the
/// rest that are at most the first element, the first element, and the sorted
/// elements of the rest that exceed it. A sequence of fewer than two elements
/// is its own result.
pub open spec fn quicksort_result<T: PartialOrd>(s: Seq<T>) -> Seq<T>
    decreases s.len(),
{
    if s.len() <= 1 {
        s
    } else {
        proof {
            s.remove(0).lemma_filter_len(at_most(s[0]));
            s.remove(0).lemma_filter_len(above(s[0]));
        }
        quicksort_result(s.remove(0).filter(at_most(s[0]))).push(s[0]) + quicksort_result(
            s.remove(0).filter(above(s[0])),
        )
    }
}

/// Where any two values are comparable, "does not exceed the pivot" is the
/// same predicate as "at most the pivot", and "not at most" the same as
/// "exceeds".
pub proof fn lemma_complements<T: PartialOrd>(pivot: T)
    requires
        comparable::<T>(),
    ensures
        not_above(pivot) == at_most(pivot),
        not_at_most(pivot) == above(pivot),
{
    assert forall|x: T| #[trigger] not_above(pivot)(x) == at_most(pivot)(x) by {
        assert(exceeds(x, pivot) <==> !leq(x, pivot));
    }
    assert forall|x: T| #[trigger] not_at_most(pivot)(x) == above(pivot)(x) by {
        assert(exceeds(x, pivot) <==> !leq(x, pivot));
    }
    assert(not_above(pivot) =~= at_most(pivot));
    assert(not_at_most(pivot) =~= above(pivot));
}

/// Clones every element of `items`, in order.
pub fn clone_all<T: Clone>(items: &[T]) -> (out: Vec<T>)
    ensures
        out@.len() == items@.len(),
        forall|i: int| 0 <= i < items@.len() ==> cloned(items@[i], #[trigger] out@[i]),
        clones_exactly::<T>() ==> out@ == items@,
{
    let mut out: Vec<T> = Vec::new();
    let mut i: usize = 0;
    while i < items.len()
        invariant
            i <= items@.len(),
            out@.len() == i,
            forall|k: int| 0 <= k < i ==> cloned(items@[k], #[trigger] out@[k]),
        decreases items@.len() - i,
    {
        out.push(items[i].clone());
        i += 1;
    }
    assert(clones_exactly::<T>() ==> out@ =~= items@);
    out
}

/// Clones of the elements of `items` that exceed the pivot, in order.
pub fn clones_above<T: PartialOrd + Clone>(items: &[T], pivot: &T) -> (out: Vec<T>)
    ensures
        out@.len() <= items@.len(),
        clones_exactly::<T>() && compares_by_model::<T>() ==> out@ == items@.filter(
            above(*pivot),
        ),
{
    let mut out: Vec<T> = Vec::new();
    let mut i: usize = 0;
    proof {
        reveal(Seq::filter);
        assert(items@.take(0).filter(above(*pivot)) =~= Seq::<T>::empty());
    }
    while i < items.len()
        invariant
            i <= items@.len(),
            out@.len() <= i,
            clones_exactly::<T>() && compares_by_model::<T>() ==> out@ == items@.take(
                i as int,
            ).filter(above(*pivot)),
        decreases items@.len() - i,
    {
        let x = items[i].clone();
        proof {
            assert(items@.take(i + 1) =~= items@.take(i as int).push(items@[i as int]));
            items@.take(i as int).lemma_filter_push(items@[i as int], above(*pivot));
        }
        if is_above(&x, pivot) {
            out.push(x);
        }
        i += 1;
    }
    assert(items@.take(i as int) =~= items@);
    out
}

/// Clones of the elements of `items` that are at most the pivot, in order.
pub fn clones_at_most<T: PartialOrd + Clone>(items: &[T], pivot: &T) -> (out: Vec<T>)
    ensures
        out@.len() <= items@.len(),
        clones_exactly::<T>() && compares_by_model::<T>() ==> out@ == items@.filter(
            at_most(*pivot),
        ),
{
    let mut out: Vec<T> = Vec::new();
    let mut i: usize = 0;
    proof {
        reveal(Seq::filter);
        assert(items@.take(0).filter(at_most(*pivot)) =~= Seq::<T>::empty());
    }
    while i < items.len()
        invariant
            i <= items@.len(),
            out@.len() <= i,
            clones_exactly::<T>() && compares_by_model::<T>() ==> out@ == items@.take(
                i as int,
            ).filter(at_most(*pivot)),
        decreases items@.len() - i,
    {
        let x = items[i].clone();
        proof {
            assert(items@.take(i + 1) =~= items@.take(i as int).push(items@[i as int]));
            items@.take(i as int).lemma_filter_push(items@[i as int], at_most(*pivot));
        }
        if is_at_most(&x, pivot) {
            out.push(x);
        }
        i += 1;
    }
    assert(items@.take(i as int) =~= items@);
    out
}

/// Splits clones of the elements of `items`, in one pass, into those that
/// exceed the pivot and the others. Each part keeps the order of `items`.
pub fn split_above<T: PartialOrd + Clone>(items: &[T], pivot: &T) -> (parts: (Vec<T>, Vec<T>))
    ensures
        parts.0@.len() + parts.1@.len() == items@.len(),
        clones_exactly::<T>() ==> permutation(parts.0@ + parts.1@, items@),
        clones_exactly::<T>() && compares_by_model::<T>() ==> parts.0@ == items@.filter(
            above(*pivot),
        ),
        clones_exactly::<T>() && compares_by_model::<T>() ==> parts.1@ == items@.filter(
            not_above(*pivot),
        ),
{
    let mut higher: Vec<T> = Vec::new();
    let mut lower: Vec<T> = Vec::new();
    let mut i: usize = 0;
    proof {
        reveal(Seq::filter);
        assert(items@.take(0).filter(above(*pivot)) =~= Seq::<T>::empty());
        assert(items@.take(0).filter(not_above(*pivot)) =~= Seq::<T>::empty());
        assert(higher@ + lower@ =~= items@.take(0));
    }
    while i < items.len()
        invariant
            i <= items@.len(),
            higher@.len() + lower@.len() == i,
            clones_exactly::<T>() ==> permutation(higher@ + lower@, items@.take(i as int)),
            clones_exactly::<T>() && compares_by_model::<T>() ==> higher@ == items@.take(
                i as int,
            ).filter(above(*pivot)),
            clones_exactly::<T>() && compares_by_model::<T>() ==> lower@ == items@.take(
                i as int,
            ).filter(not_above(*pivot)),
        decreases items@.len() - i,
    {
        let x = items[i].clone();
        proof {
            assert(items@.take(i + 1) =~= items@.take(i as int).push(items@[i as int]));
            items@.take(i as int).lemma_filter_push(items@[i as int], above(*pivot));
            items@.take(i as int).lemma_filter_push(items@[i as int], not_above(*pivot));
            if clones_exactly::<T>() {
                lemma_permutation_push(higher@, lower@, items@.take(i as int), x);
            }
        }
        if is_above(&x, pivot) {
            higher.push(x);
        } else {
            lower.push(x);
        }
        i += 1;
    }
    assert(items@.take(i as int) =~= items@);
    (higher, lower)
}

/// Takes the element at `pivot_index` as the pivot and splits the others, in
/// one pass, into those that are at most the pivot and the rest. Returns
/// clones: the first part, the pivot, the second part. Each part keeps the
/// order of `array`.
pub fn split_around<T: PartialOrd + Clone>(array: &[T], pivot_index: usize) -> (parts: (
    Vec<T>,
    T,
    Vec<T>,
))
    requires
        pivot_index < array@.len(),
    ensures
        parts.0@.len() + parts.2@.len() + 1 == array@.len(),
        cloned(array@[pivot_index as int], parts.1),
        clones_exactly::<T>() ==> permutation(
            parts.0@ + parts.2@,
            array@.remove(pivot_index as int),
        ),
        clones_exactly::<T>() && compares_by_model::<T>() ==> parts.0@ == array@.remove(
            pivot_index as int,
        ).filter(at_most(array@[pivot_index as int])),
        clones_exactly::<T>() && compares_by_model::<T>() ==> parts.2@ == array@.remove(
            pivot_index as int,
        ).filter(not_at_most(array@[pivot_index as int])),
{
    let pivot = array[pivot_index].clone();
    let mut lower: Vec<T> = Vec::new();
    let mut higher: Vec<T> = Vec::new();
    let ghost others = array@.remove(pivot_index as int);
    let ghost chosen = array@[pivot_index as int];
    let mut i: usize = 0;
    proof {
        reveal(Seq::filter);
        assert(others.take(0).filter(at_most(chosen)) =~= Seq::<T>::empty());
        assert(others.take(0).filter(not_at_most(chosen)) =~= Seq::<T>::empty());
        assert(lower@ + higher@ =~= others.take(0));
    }
    while i < array.len()
        invariant
            i <= array@.len(),
            pivot_index < array@.len(),
            others == array@.remove(pivot_index as int),
            chosen == array@[pivot_index as int],
            cloned(chosen, pivot),
            lower@.len() + higher@.len() == (if i <= pivot_index { i as int } else { i - 1 }),
            clones_exactly::<T>() ==> permutation(
                lower@ + higher@,
                others.take(if i <= pivot_index { i as int } else { i - 1 }),
            ),
            clones_exactly::<T>() && compares_by_model::<T>() ==> lower@ == others.take(
                if i <= pivot_index { i as int } else { i - 1 },
            ).filter(at_most(chosen)),
            clones_exactly::<T>() && compares_by_model::<T>() ==> higher@ == others.take(
                if i <= pivot_index { i as int } else { i - 1 },
            ).filter(not_at_most(chosen)),
        decreases array@.len() - i,
    {
        if i != pivot_index {
            let x = array[i].clone();
            proof {
                let done: int = if i < pivot_index { i as int } else { i - 1 };
                assert(others[done] == array@[i as int]);
                assert(others.take(done + 1) =~= others.take(done).push(others[done]));
                others.take(done).lemma_filter_push(others[done], at_most(chosen));
                others.take(done).lemma_filter_push(others[done], not_at_most(chosen));
                if clones_exactly::<T>() {
                    lemma_permutation_push(lower@, higher@, others.take(done), x);
                }
            }
            if is_at_most(&x, &pivot) {
                lower.push(x);
            } else {
                higher.push(x);
            }
        }
        i += 1;
    }
    assert(others.take(array@.len() - 1) =~= others);
    (lower, pivot, higher)
}

/// A new vector holding clones of `lo`, then a clone of the pivot, then clones
/// of `hi`, built by extending with each whole piece in turn.
pub fn concat_around<T: Clone>(lo: &[T], pivot: &T, hi: &[T]) -> (out: Vec<T>)
    ensures
        out@.len() == lo@.len() + 1 + hi@.len(),
        clones_exactly::<T>() ==> out@ == lo@.push(*pivot) + hi@,
{
    let mut out: Vec<T> = Vec::new();
    out.extend_from_slice(lo);
    out.push(pivot.clone());
    out.extend_from_slice(hi);
    assert(clones_exactly::<T>() ==> out@ =~= lo@.push(*pivot) + hi@);
    out
}

/// A new vector holding clones of `lo`, then a clone of the pivot, then clones
/// of `hi`, built one element at a time.
pub fn chain_around<T: Clone>(lo: &[T], pivot: &T, hi: &[T]) -> (out: Vec<T>)
    ensures
        out@.len() == lo@.len() + 1 + hi@.len(),
        clones_exactly::<T>() ==> out@ == lo@.push(*pivot) + hi@,
{
    let mut out: Vec<T> = Vec::new();
    let mut i: usize = 0;
    while i < lo.len()
        invariant
            i <= lo@.len(),
            out@.len() == i,
            clones_exactly::<T>() ==> out@ == lo@.take(i as int),
        decreases lo@.len() - i,
    {
        out.push(lo[i].clone());
        assert(clones_exactly::<T>() ==> out@ =~= lo@.take(i + 1));
        i += 1;
    }
    assert(lo@.take(i as int) =~= lo@);
    out.push(pivot.clone());
    let mut j: usize = 0;
    while j < hi.len()
        invariant
            j <= hi@.len(),
            out@.len() == lo@.len() + 1 + j,
            clones_exactly::<T>() ==> out@ == lo@.push(*pivot) + hi@.take(j as int),
        decreases hi@.len() - j,
    {
        out.push(hi[j].clone());
        assert(clones_exactly::<T>() ==> out@ =~= lo@.push(*pivot) + hi@.take(j + 1));
        j += 1;
    }
    assert(hi@.take(j as int) =~= hi@);
    out
}

/// The vector `lo`, followed by the pivot, followed by `hi`; the elements are
/// moved, not cloned.
pub fn join_around<T>(lo: Vec<T>, pivot: T, hi: Vec<T>) -> (out: Vec<T>)
    ensures
        out@ == lo@.push(pivot) + hi@,
{
    let mut out = lo;
    let mut hi = hi;
    out.push(pivot);
    out.append(&mut hi);
    out
}

/// Sorts by two filtering passes around the first element.
///
/// The pivot is the first element. One pass over the rest collects the
/// elements that exceed it, a second pass those that are at most it; both
/// parts are sorted the same way and the result is the sorted lower part, the
/// pivot, and the sorted higher part: `quicksort_result`, element for
/// element. An element that is neither above the pivot nor at most it is
/// lost, so that the result is a permutation is promised only where any two
/// values are comparable.
pub fn quicksort<T: PartialOrd + Clone>(array: &[T]) -> (out: Vec<T>)
    ensures
        clones_exactly::<T>() && compares_by_model::<T>() ==> out@ == quicksort_result(array@),
        array@.len() <= 1 ==> out@.len() == array@.len(),
        clones_exactly::<T>() && comparable::<T>() ==> out@.len() == array@.len(),
        clones_exactly::<T>() && comparable::<T>() ==> permutation(out@, array@),
        clones_exactly::<T>() && total_preorder::<T>() ==> sorted(out@),
        clones_exactly::<T>() && total_preorder::<T>() && sorted(array@) && antisymmetric_on(
            array@,
        ) ==> out@ == array@,
        clones_exactly::<T>() && array@.len() <= 1 ==> out@ == array@,
    decreases array@.len(),
{
    if array.len() <= 1 {
        return clone_all(array);
    }
    let pivot = &array[0];
    let tail = slice_subrange(array, 1, array.len());
    let higher = clones_above(tail, pivot);
    let lower = clones_at_most(tail, pivot);
    let sorted_lower = quicksort(lower.as_slice());
    let sorted_higher = quicksort(higher.as_slice());
    let out = concat_around(sorted_lower.as_slice(), pivot, sorted_higher.as_slice());
    proof {
        assert(tail@ =~= array@.remove(0));
        if clones_exactly::<T>() && comparable::<T>() {
            lemma_two_filters_sort(array@, lower@, higher@, sorted_lower@, sorted_higher@);
            lemma_permutation_members(out@, array@);
            if total_preorder::<T>() && sorted(array@) && antisymmetric_on(array@) {
                lemma_sorted_permutation_unique(out@, array@);
            }
        }
    }
    out
}

/// Sorts by one splitting pass around the first element, joining the parts
/// in one step.
///
/// The pivot is the first element. A single pass splits the rest into the
/// elements that exceed it and the others; both parts are sorted the same way
/// and the result is built at once from the sorted lower part, the pivot, and
/// the sorted higher part. Every element lands in exactly one part, so no
/// element is lost or repeated, whatever the comparison does.
pub fn quicksort_partition_v1<T: PartialOrd + Clone>(array: &[T]) -> (out: Vec<T>)
    ensures
        out@.len() == array@.len(),
        clones_exactly::<T>() && comparable::<T>() ==> out@ == quicksort_result(array@),
        clones_exactly::<T>() ==> permutation(out@, array@),
        clones_exactly::<T>() && total_preorder::<T>() ==> sorted(out@),
        clones_exactly::<T>() && total_preorder::<T>() && sorted(array@) && antisymmetric_on(
            array@,
        ) ==> out@ == array@,
        clones_exactly::<T>() && array@.len() <= 1 ==> out@ == array@,
    decreases array@.len(),
{
    if array.len() <= 1 {
        return clone_all(array);
    }
    let pivot = &array[0];
    let tail = slice_subrange(array, 1, array.len());
    let (higher, lower) = split_above(tail, pivot);
    let sorted_lower = quicksort_partition_v1(lower.as_slice());
    let sorted_higher = quicksort_partition_v1(higher.as_slice());
    let out = concat_around(sorted_lower.as_slice(), pivot, sorted_higher.as_slice());
    proof {
        if clones_exactly::<T>() {
            assert(tail@ =~= array@.remove(0));
            if comparable::<T>() {
                lemma_complements(array@[0]);
            }
            lemma_split_above_sorts(array@, lower@, higher@, sorted_lower@, sorted_higher@);
            if total_preorder::<T>() && sorted(array@) && antisymmetric_on(array@) {
                lemma_sorted_permutation_unique(out@, array@);
            }
        }
    }
    out
}

/// Sorts by one splitting pass around the first element, joining the parts
/// element by element.
///
/// As [`quicksort_partition_v1`], except that the result is built
/// incrementally: the sorted lower part is appended, then the pivot, then the
/// sorted higher part.
pub fn quicksort_partition_v2<T: PartialOrd + Clone>(array: &[T]) -> (out: Vec<T>)
    ensures
        out@.len() == array@.len(),
        clones_exactly::<T>() && comparable::<T>() ==> out@ == quicksort_result(array@),
        clones_exactly::<T>() ==> permutation(out@, array@),
        clones_exactly::<T>() && total_preorder::<T>() ==> sorted(out@),
        clones_exactly::<T>() && total_preorder::<T>() && sorted(array@) && antisymmetric_on(
            array@,
        ) ==> out@ == array@,
        clones_exactly::<T>() && array@.len() <= 1 ==> out@ == array@,
    decreases array@.len(),
{
    if array.len() <= 1 {
        return clone_all(array);
    }
    let pivot = &array[0];
    let tail = slice_subrange(array, 1, array.len());
    let (higher, lower) = split_above(tail, pivot);
    let sorted_lower = quicksort_partition_v2(lower.as_slice());
    let sorted_higher = quicksort_partition_v2(higher.as_slice());
    let out = chain_around(sorted_lower.as_slice(), pivot, sorted_higher.as_slice());
    proof {
        if clones_exactly::<T>() {
            assert(tail@ =~= array@.remove(0));
            if comparable::<T>() {
                lemma_complements(array@[0]);
            }
            lemma_split_above_sorts(array@, lower@, higher@, sorted_lower@, sorted_higher@);
            if total_preorder::<T>() && sorted(array@) && antisymmetric_on(array@) {
                lemma_sorted_permutation_unique(out@, array@);
            }
        }
    }
    out
}

/// Sorts by one splitting pass around the first element, moving the sorted
/// parts into the result.
///
/// The pivot is a clone of the first element. A single pass splits the rest
/// into the elements that are at most the pivot and the others; both parts
/// are sorted the same way and moved, with the pivot between them, into the
/// result.
pub fn quicksort_partition_v3<T: PartialOrd + Clone>(array: &[T]) -> (out: Vec<T>)
    ensures
        out@.len() == array@.len(),
        clones_exactly::<T>() && comparable::<T>() ==> out@ == quicksort_result(array@),
        clones_exactly::<T>() ==> permutation(out@, array@),
        clones_exactly::<T>() && total_preorder::<T>() ==> sorted(out@),
        clones_exactly::<T>() && total_preorder::<T>() && sorted(array@) && antisymmetric_on(
            array@,
        ) ==> out@ == array@,
        clones_exactly::<T>() && array@.len() <= 1 ==> out@ == array@,
    decreases array@.len(),
{
    if array.len() <= 1 {
        return clone_all(array);
    }
    let (lower, pivot, higher) = split_around(array, 0);
    let sorted_lower = quicksort_partition_v3(lower.as_slice());
    let sorted_higher = quicksort_partition_v3(higher.as_slice());
    let out = join_around(sorted_lower, pivot, sorted_higher);
    proof {
        if clones_exactly::<T>() {
            if comparable::<T>() {
                lemma_complements(array@[0]);
            }
            lemma_split_around_sorts(array@, 0, lower@, higher@, sorted_lower@, sorted_higher@);
            if total_preorder::<T>() && sorted(array@) && antisymmetric_on(array@) {
                lemma_sorted_permutation_unique(out@, array@);
            }
        }
    }
    out
}

/// Sorts by one splitting pass around a pivot drawn uniformly at random from
/// the whole sequence.
///
/// As [`quicksort_partition_v3`], except for the choice of the pivot, which
/// keeps sorted, reverse-sorted and adversarial inputs from costing quadratic
/// time. The element drawn is the only one left out of the splitting pass.
/// Which permutation of equivalent elements comes back depends on the pivots
/// drawn; that it is a sorted permutation does not.
pub fn quicksort_partition<T: PartialOrd + Clone>(array: &[T]) -> (out: Vec<T>)
    ensures
        out@.len() == array@.len(),
        clones_exactly::<T>() ==> permutation(out@, array@),
        clones_exactly::<T>() && total_preorder::<T>() ==> sorted(out@),
        clones_exactly::<T>() && total_preorder::<T>() && sorted(array@) && antisymmetric_on(
            array@,
        ) ==> out@ == array@,
        clones_exactly::<T>() && array@.len() <= 1 ==> out@ == array@,
    decreases array@.len(),
{
    if array.len() <= 1 {
        return clone_all(array);
    }
    let pivot_index: usize = random_index(array.len());
    let (lower, pivot, higher) = split_around(array, pivot_index);
    let sorted_lower = quicksort_partition(lower.as_slice());
    let sorted_higher = quicksort_partition(higher.as_slice());
    let out = join_around(sorted_lower, pivot, sorted_higher);
    proof {
        if clones_exactly::<T>() {
            lemma_split_around_sorts(
                array@,
                pivot_index as int,
                lower@,
                higher@,
                sorted_lower@,
                sorted_higher@,
            );
            if total_preorder::<T>() && sorted(array@) && antisymmetric_on(array@) {
                lemma_sorted_permutation_unique(out@, array@);
            }
        }
    }
    out
}

} // verus!
