//! The mathematical model of the element order, and what it means for a
//! sequence to be sorted.
//!
//! The sorts work for any `T: PartialOrd + Clone`, and what they promise
//! depends on what `T` promises. The comparison is modelled by `leq` and
//! `exceeds`, which read what `T` declares of its `partial_cmp` in ghost code.
//! A sort's output is sorted when that comparison is a `total_preorder`, and
//! a sort that copies elements returns a permutation of its input when
//! `clone` on `T` is exact (`clones_exactly`); the sorts that filter twice
//! also need every two values to be `comparable`, or an element could fall
//! through both filters. Sorting a sorted sequence gives it back when no two
//! different elements of it are equivalent (`antisymmetric_on`), which is so
//! for every sequence when the comparison is a `total_order`. For the
//! primitive integers all of this holds, and Verus proves so by itself;
//! `lemma_u32_model` and `lemma_u64_model` say it for two of them.

use std::cmp::Ordering;
use vstd::prelude::*;
use vstd::std_specs::cmp::PartialOrdSpec;

verus! {

/// `a` is ordered before `b` or is equivalent to it.
pub open spec fn leq<T: PartialOrd>(a: T, b: T) -> bool {
    a.partial_cmp_spec(&b) matches Some(Ordering::Less | Ordering::Equal)
}

/// `a` is ordered strictly after `b`.
pub open spec fn exceeds<T: PartialOrd>(a: T, b: T) -> bool {
    a.partial_cmp_spec(&b) == Some(Ordering::Greater)
}

/// The executable comparison operators of `T` compute what `leq` and
/// `exceeds` say.
pub open spec fn compares_by_model<T: PartialOrd>() -> bool {
    T::obeys_partial_cmp_spec()
}

/// Any two values of `T` are comparable: `>` is the complement of `<=`, in
/// the model and in what the operators compute.
pub open spec fn comparable<T: PartialOrd>() -> bool {
    &&& compares_by_model::<T>()
    &&& forall|a: T, b: T|
        #![trigger exceeds(a, b)]
        #![trigger leq(a, b)]
        exceeds(a, b) <==> !leq(a, b)
}

/// The comparison of `T` is a total preorder: any two values are comparable,
/// one of them is `leq` the other, and `leq` is transitive.
pub open spec fn total_preorder<T: PartialOrd>() -> bool {
    &&& comparable::<T>()
    &&& forall|a: T, b: T| #[trigger] leq(a, b) || leq(b, a)
    &&& forall|a: T, b: T, c: T| #[trigger] leq(a, b) && #[trigger] leq(b, c) ==> leq(a, c)
}

/// The comparison of `T` is a total order: a total preorder in which two
/// values that are equivalent are equal.
pub open spec fn total_order<T: PartialOrd>() -> bool {
    &&& total_preorder::<T>()
    &&& forall|a: T, b: T| #[trigger] leq(a, b) && leq(b, a) ==> a == b
}

/// `a` is ordered strictly before `b`.
pub open spec fn precedes<T: PartialOrd>(a: T, b: T) -> bool {
    a.partial_cmp_spec(&b) == Some(Ordering::Less)
}

/// The comparison of `T` is a total preorder in which `a` precedes `b`
/// exactly when `b` exceeds `a`, and `==`, `partial_cmp` and `Ord::cmp` all
/// compute it and agree with one another. The second conjunct is vstd's
/// statement of the laws that `Eq`, `PartialOrd` and `Ord` ask of a type.
pub open spec fn total_preorder_by_ord<T: Ord>() -> bool {
    &&& total_preorder::<T>()
    &&& vstd::laws_cmp::obeys_cmp::<T>()
    &&& forall|a: T, b: T|
        #![trigger precedes(a, b)]
        #![trigger exceeds(b, a)]
        precedes(a, b) <==> exceeds(b, a)
}

/// `clone` on `T` returns a value equal to the one it was given.
pub open spec fn clones_exactly<T: Clone>() -> bool {
    forall|a: T, b: T| #[trigger] call_ensures(T::clone, (&a,), b) ==> b == a
}

/// Every element is `leq` every element that comes after it.
pub open spec fn sorted<T: PartialOrd>(s: Seq<T>) -> bool {
    forall|i: int, j: int| #![trigger s[i], s[j]] 0 <= i < j < s.len() ==> leq(s[i], s[j])
}

/// No two different elements of `s` are equivalent: two of its elements that
/// are each `leq` the other are equal.
pub open spec fn antisymmetric_on<T: PartialOrd>(s: Seq<T>) -> bool {
    forall|i: int, j: int|
        #![trigger s[i], s[j]]
        0 <= i < s.len() && 0 <= j < s.len() && leq(s[i], s[j]) && leq(s[j], s[i]) ==> s[i]
            == s[j]
}

/// `a` and `b` hold the same elements, each the same number of times.
pub open spec fn permutation<T>(a: Seq<T>, b: Seq<T>) -> bool {
    a.to_multiset() == b.to_multiset()
}

/// The predicate "is `leq` the pivot".
pub open spec fn at_most<T: PartialOrd>(pivot: T) -> spec_fn(T) -> bool {
    |x: T| leq(x, pivot)
}

/// The predicate "`exceeds` the pivot".
pub open spec fn above<T: PartialOrd>(pivot: T) -> spec_fn(T) -> bool {
    |x: T| exceeds(x, pivot)
}

/// The predicate "is not `leq` the pivot".
pub open spec fn not_at_most<T: PartialOrd>(pivot: T) -> spec_fn(T) -> bool {
    |x: T| !leq(x, pivot)
}

/// The predicate "does not `exceeds` the pivot".
pub open spec fn not_above<T: PartialOrd>(pivot: T) -> spec_fn(T) -> bool {
    |x: T| !exceeds(x, pivot)
}

/// Whether `x <= pivot`.
pub fn is_at_most<T: PartialOrd>(x: &T, pivot: &T) -> (r: bool)
    ensures
        compares_by_model::<T>() ==> r == leq(*x, *pivot),
{
    *x <= *pivot
}

/// Whether `x > pivot`.
pub fn is_above<T: PartialOrd>(x: &T, pivot: &T) -> (r: bool)
    ensures
        compares_by_model::<T>() ==> r == exceeds(*x, *pivot),
{
    *x > *pivot
}

/// The comparison of `u32` is a total order, by `Ord` too, and its `clone`
/// is exact.
pub proof fn lemma_u32_model()
    ensures
        total_order::<u32>(),
        total_preorder_by_ord::<u32>(),
        clones_exactly::<u32>(),
{
    broadcast use vstd::laws_cmp::group_laws_cmp;

}

/// The comparison of `u64` is a total order, by `Ord` too, and its `clone`
/// is exact.
pub proof fn lemma_u64_model()
    ensures
        total_order::<u64>(),
        total_preorder_by_ord::<u64>(),
        clones_exactly::<u64>(),
{
    broadcast use vstd::laws_cmp::group_laws_cmp;

}

} // verus!
