//! The partition step: one pivot, one pass, swaps only.
//!
//! `partitioned` says what a partition step is for, and `partition_result`
//! says exactly which arrangement the scan leaves, element for element.

use crate::order::{compares_by_model, is_at_most, leq, permutation};
use rand::Rng;
use vstd::prelude::*;
use vstd::seq_lib::*;

verus! {

/// `<[T]>::swap` exchanges the elements at `a` and `b` and touches nothing
/// else; it panics when either index is out of bounds, which `requires`
/// excludes.
pub assume_specification<Elem>[ <[Elem]>::swap ](slice: &mut [Elem], a: usize, b: usize)
    requires
        a < old(slice)@.len(),
        b < old(slice)@.len(),
    ensures
        final(slice)@ == old(slice)@.update(a as int, old(slice)@[b as int]).update(
            b as int,
            old(slice)@[a as int],
        ),
;

/// The element at `p` separates `s`: everything before it is `leq` it and
/// nothing after it is.
pub open spec fn partitioned<T: PartialOrd>(s: Seq<T>, p: int) -> bool {
    &&& 0 <= p < s.len()
    &&& forall|i: int| 0 <= i < p ==> leq(#[trigger] s[i], s[p])
    &&& forall|i: int| p < i < s.len() ==> !leq(#[trigger] s[i], s[p])
}

/// `s` with the elements at `a` and `b` exchanged.
pub open spec fn exchanged<T>(s: Seq<T>, a: int, b: int) -> Seq<T> {
    s.update(a, s[b]).update(b, s[a])
}

/// What the scan leaves behind: the sequence and the boundary, once the scan
/// index has walked from `at` to the end of `s`.
///
/// The pivot stands at position 0 and `boundary` is the first position not
/// yet known to hold an element `leq` the pivot. An element `leq` the pivot
/// is exchanged with the one at the boundary, and the boundary moves on; any
/// other element is passed over.
pub open spec fn scanned<T: PartialOrd>(s: Seq<T>, boundary: int, at: int) -> (Seq<T>, int)
    decreases s.len() - at,
{
    if 0 < boundary <= at < s.len() {
        if leq(s[at], s[0]) {
            scanned(exchanged(s, boundary, at), boundary + 1, at + 1)
        } else {
            scanned(s, boundary, at + 1)
        }
    } else {
        (s, boundary)
    }
}

/// The outcome of partitioning `s` around the element at `k`: the rearranged
/// sequence and the pivot's final index.
///
/// The pivot is exchanged with the first element, the rest is scanned, and
/// the pivot is exchanged with the last element in front of the boundary.
pub open spec fn partition_result<T: PartialOrd>(s: Seq<T>, k: int) -> (Seq<T>, int) {
    let (t, boundary) = scanned(exchanged(s, 0, k), 1, 1);
    (exchanged(t, 0, boundary - 1), boundary - 1)
}

/// Exchanging two elements of a sequence gives a permutation of it.
pub proof fn lemma_swap_permutation<T>(s: Seq<T>, a: int, b: int)
    requires
        0 <= a < s.len(),
        0 <= b < s.len(),
    ensures
        permutation(exchanged(s, a, b), s),
{
    broadcast use group_to_multiset_ensures;

    let t = s.update(a, s[b]);
    assert(t[b] == s[b]);
    assert(t.update(b, s[a]).to_multiset() =~= s.to_multiset());
}

/// A scan that meets no element `leq` the pivot changes nothing.
pub proof fn lemma_scan_passes_over<T: PartialOrd>(s: Seq<T>, boundary: int, at: int)
    requires
        0 < boundary <= at <= s.len(),
        forall|m: int| at <= m < s.len() ==> !leq(#[trigger] s[m], s[0]),
    ensures
        scanned(s, boundary, at) == (s, boundary),
    decreases s.len() - at,
{
    if at < s.len() {
        lemma_scan_passes_over(s, boundary, at + 1);
    }
}

/// Partitioning around a first element that every other element exceeds
/// leaves the sequence as it is, with the pivot at index 0: the split that
/// makes sorted input costly.
pub proof fn lemma_partition_least_first<T: PartialOrd>(s: Seq<T>)
    requires
        s.len() > 0,
        forall|m: int| 0 < m < s.len() ==> !leq(#[trigger] s[m], s[0]),
    ensures
        partition_result(s, 0) == (s, 0int),
{
    assert(exchanged(s, 0, 0) =~= s);
    lemma_scan_passes_over(s, 1, 1);
}

/// Partitions `arr` around the element at `pivot_index`.
///
/// The pivot is moved to the front, the rest is scanned once with a boundary
/// index that marks the end of the elements found to be `leq` the pivot, and
/// the pivot is then swapped into the last position of that region. Returns
/// the pivot's final index. The step is not stable: elements on either side
/// may have changed their order, in the way that `partition_result` spells
/// out.
pub fn partition_at<T: PartialOrd>(arr: &mut [T], pivot_index: usize) -> (p: usize)
    requires
        pivot_index < old(arr)@.len(),
    ensures
        p < old(arr)@.len(),
        final(arr)@.len() == old(arr)@.len(),
        permutation(final(arr)@, old(arr)@),
        final(arr)@[p as int] == old(arr)@[pivot_index as int],
        compares_by_model::<T>() ==> partitioned(final(arr)@, p as int),
        compares_by_model::<T>() ==> (final(arr)@, p as int) == partition_result(
            old(arr)@,
            pivot_index as int,
        ),
{
    let n: usize = arr.len();
    let ghost pivot = arr@[pivot_index as int];
    proof {
        lemma_swap_permutation(arr@, 0, pivot_index as int);
    }
    arr.swap(0, pivot_index);
    let ghost start = arr@;
    let mut i: usize = 1;
    let mut j: usize = 1;
    while j < n
        invariant
            1 <= i <= j <= n,
            arr@.len() == n,
            n == old(arr)@.len(),
            permutation(arr@, old(arr)@),
            arr@[0] == pivot,
            compares_by_model::<T>() ==> forall|m: int|
                1 <= m < i ==> leq(#[trigger] arr@[m], pivot),
            compares_by_model::<T>() ==> forall|m: int|
                i <= m < j ==> !leq(#[trigger] arr@[m], pivot),
            compares_by_model::<T>() ==> scanned(arr@, i as int, j as int) == scanned(start, 1, 1),
        decreases n - j,
    {
        if is_at_most(&arr[j], &arr[0]) {
            proof {
                lemma_swap_permutation(arr@, i as int, j as int);
            }
            arr.swap(i, j);
            i += 1;
        }
        j += 1;
    }
    proof {
        lemma_swap_permutation(arr@, 0, i - 1);
    }
    arr.swap(0, i - 1);
    i - 1
}

/// Draws an index below `n` from the thread-local generator.
///
/// This is `rand::thread_rng().gen_range(0..n)`, which returns some value of
/// the half-open range and panics when the range is empty; `requires`
/// excludes the empty range. Nothing is claimed about which index comes
/// back.
#[verifier::external_body]
pub(crate) fn random_index(n: usize) -> (k: usize)
    requires
        n > 0,
    ensures
        k < n,
{
    rand::thread_rng().gen_range(0..n)
}

/// Partitions `arr` around its first element.
///
/// On already sorted input every call splits off a single element, so a sort
/// built on this step alone takes quadratic time; it is kept as the simple
/// counterpart of [`partition`]. A slice with fewer than two elements is left
/// as it is and 0 is returned.
pub fn partition_first_value_pivot<T: PartialOrd + Clone>(arr: &mut [T]) -> (p: usize)
    ensures
        final(arr)@.len() == old(arr)@.len(),
        permutation(final(arr)@, old(arr)@),
        old(arr)@.len() <= 1 ==> p == 0 && final(arr)@ == old(arr)@,
        old(arr)@.len() > 0 ==> p < old(arr)@.len() && final(arr)@[p as int] == old(arr)@[0],
        old(arr)@.len() > 0 && compares_by_model::<T>() ==> partitioned(final(arr)@, p as int),
        old(arr)@.len() > 0 && compares_by_model::<T>() ==> (final(arr)@, p as int)
            == partition_result(old(arr)@, 0),
        compares_by_model::<T>() && (forall|m: int|
            0 < m < old(arr)@.len() ==> !leq(#[trigger] old(arr)@[m], old(arr)@[0])) ==> p == 0
            && final(arr)@ == old(arr)@,
{
    if arr.len() <= 1 {
        proof {
            if arr@.len() == 1 {
                lemma_partition_least_first(arr@);
            }
        }
        return 0;
    }
    proof {
        if forall|m: int| 0 < m < arr@.len() ==> !leq(#[trigger] arr@[m], arr@[0]) {
            lemma_partition_least_first(arr@);
        }
    }
    partition_at(arr, 0)
}

/// Partitions `arr` around an element drawn uniformly at random, which makes
/// the quadratic case of a sort built on it vanishingly unlikely whatever the
/// input. A slice with fewer than two elements is left as it is and 0 is
/// returned.
pub fn partition<T: PartialOrd + Clone>(arr: &mut [T]) -> (p: usize)
    ensures
        final(arr)@.len() == old(arr)@.len(),
        permutation(final(arr)@, old(arr)@),
        old(arr)@.len() <= 1 ==> p == 0 && final(arr)@ == old(arr)@,
        old(arr)@.len() > 0 ==> p < old(arr)@.len() && old(arr)@.contains(final(arr)@[p as int]),
        old(arr)@.len() > 0 && compares_by_model::<T>() ==> partitioned(final(arr)@, p as int),
        old(arr)@.len() > 0 && compares_by_model::<T>() ==> exists|k: int|
            0 <= k < old(arr)@.len() && (final(arr)@, p as int) == #[trigger] partition_result(
                old(arr)@,
                k,
            ),
{
    if arr.len() <= 1 {
        proof {
            if arr@.len() == 1 {
                lemma_partition_least_first(arr@);
            }
        }
        return 0;
    }
    let pivot_index: usize = random_index(arr.len());
    partition_at(arr, pivot_index)
}

} // verus!
