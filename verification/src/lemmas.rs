//! Facts about sorted sequences and permutations that the sorts share.

use crate::order::{
    above, antisymmetric_on, at_most, comparable, compares_by_model, exceeds, leq, not_above,
    not_at_most, permutation, sorted, total_order, total_preorder,
};
use vstd::prelude::*;
use vstd::seq_lib::*;

verus! {

/// Two permutations of each other have the same length and the same members.
pub proof fn lemma_permutation_members<T>(a: Seq<T>, b: Seq<T>)
    requires
        permutation(a, b),
    ensures
        a.len() == b.len(),
        forall|x: T| a.contains(x) <==> b.contains(x),
{
    broadcast use group_to_multiset_ensures;

    assert(a.to_multiset().len() == b.to_multiset().len());
    assert forall|x: T| a.contains(x) <==> b.contains(x) by {
        assert(a.to_multiset().count(x) == b.to_multiset().count(x));
    }
}

/// A sequence with at most one element has no other permutation than itself.
pub proof fn lemma_permutation_short<T>(a: Seq<T>, b: Seq<T>)
    requires
        permutation(a, b),
        b.len() <= 1,
    ensures
        a == b,
{
    lemma_permutation_members(a, b);
    if b.len() == 1 {
        assert(a.contains(a[0]));
        assert(b.contains(a[0]));
    }
    assert(a =~= b);
}

/// Appending one element to either of two parts, and to the sequence that
/// they are together a permutation of, keeps them a permutation of it.
pub proof fn lemma_permutation_push<T>(a: Seq<T>, b: Seq<T>, s: Seq<T>, x: T)
    requires
        permutation(a + b, s),
    ensures
        permutation(a.push(x) + b, s.push(x)),
        permutation(a + b.push(x), s.push(x)),
{
    broadcast use group_to_multiset_ensures;
    broadcast use vstd::multiset::group_multiset_axioms;

    lemma_multiset_commutative(a, b);
    lemma_multiset_commutative(a.push(x), b);
    lemma_multiset_commutative(a, b.push(x));
    assert((a.push(x) + b).to_multiset() =~= s.push(x).to_multiset());
    assert((a + b.push(x)).to_multiset() =~= s.push(x).to_multiset());
}

/// Two complementary filters split a sequence into parts that together are a
/// permutation of it.
pub proof fn lemma_filter_split<T>(s: Seq<T>, keep: spec_fn(T) -> bool, rest: spec_fn(T) -> bool)
    requires
        forall|x: T| #[trigger] keep(x) <==> !rest(x),
    ensures
        permutation(s.filter(keep) + s.filter(rest), s),
        s.filter(keep).len() + s.filter(rest).len() == s.len(),
    decreases s.len(),
{
    broadcast use group_to_multiset_ensures;

    reveal(Seq::filter);
    lemma_multiset_commutative(s.filter(keep), s.filter(rest));
    if s.len() > 0 {
        let t = s.drop_last();
        lemma_filter_split(t, keep, rest);
        lemma_multiset_commutative(t.filter(keep), t.filter(rest));
        assert(s =~= t.push(s.last()));
        assert(keep(s.last()) <==> !rest(s.last()));
        assert(s.to_multiset() =~= (s.filter(keep) + s.filter(rest)).to_multiset());
    } else {
        assert(s.filter(keep) + s.filter(rest) =~= s);
    }
}

/// Putting the pivot back between permutations of the two parts that the
/// rest of a sequence was split into gives a permutation of the sequence.
pub proof fn lemma_permutation_assembled<T>(
    whole: Seq<T>,
    k: int,
    lo: Seq<T>,
    hi: Seq<T>,
    lo2: Seq<T>,
    hi2: Seq<T>,
)
    requires
        0 <= k < whole.len(),
        permutation(lo + hi, whole.remove(k)),
        permutation(lo2, lo),
        permutation(hi2, hi),
    ensures
        permutation(lo2.push(whole[k]) + hi2, whole),
{
    broadcast use group_to_multiset_ensures;
    broadcast use vstd::multiset::group_multiset_axioms;

    let x = whole[k];
    lemma_multiset_commutative(lo, hi);
    lemma_multiset_commutative(lo2.push(x), hi2);
    assert(whole.remove(k).to_multiset() =~= whole.to_multiset().remove(x));
    assert(whole.contains(x));
    assert(whole.to_multiset().count(x) > 0);
    assert(lo2.push(x).to_multiset() =~= lo2.to_multiset().insert(x));
    assert((lo2.push(x) + hi2).to_multiset() =~= whole.to_multiset().remove(x).insert(x));
    assert(whole.to_multiset().remove(x).insert(x) =~= whole.to_multiset());
}

/// In a sorted sequence every element is `leq` its successor, and under a
/// total preorder a sequence in which that holds is sorted.
pub proof fn lemma_sorted_iff_adjacent<T: PartialOrd>(s: Seq<T>)
    requires
        total_preorder::<T>(),
    ensures
        sorted(s) <==> forall|i: int| 0 <= i < s.len() - 1 ==> leq(#[trigger] s[i], s[i + 1]),
{
    if forall|i: int| 0 <= i < s.len() - 1 ==> leq(#[trigger] s[i], s[i + 1]) {
        assert forall|i: int, j: int| 0 <= i < j < s.len() implies leq(
            #[trigger] s[i],
            #[trigger] s[j],
        ) by {
            lemma_adjacent_reaches(s, i, j);
        }
    }
}

/// Where every element is `leq` its successor, it is `leq` every later one.
proof fn lemma_adjacent_reaches<T: PartialOrd>(s: Seq<T>, i: int, j: int)
    requires
        total_preorder::<T>(),
        forall|k: int| 0 <= k < s.len() - 1 ==> leq(#[trigger] s[k], s[k + 1]),
        0 <= i < j < s.len(),
    ensures
        leq(s[i], s[j]),
    decreases j - i,
{
    if i + 1 < j {
        lemma_adjacent_reaches(s, i, j - 1);
        assert(leq(s[j - 1], s[j - 1 + 1]));
        assert(leq(s[i], s[j - 1]) && leq(s[j - 1], s[j]));
    } else {
        assert(leq(s[i], s[i + 1]));
    }
}

/// A sorted run of elements `leq` the pivot, the pivot, and a sorted run of
/// elements that the pivot is `leq`, make a sorted sequence.
pub proof fn lemma_sorted_around_pivot<T: PartialOrd>(lo: Seq<T>, pivot: T, hi: Seq<T>)
    requires
        total_preorder::<T>(),
        sorted(lo),
        sorted(hi),
        forall|i: int| 0 <= i < lo.len() ==> leq(#[trigger] lo[i], pivot),
        forall|i: int| 0 <= i < hi.len() ==> leq(pivot, #[trigger] hi[i]),
    ensures
        sorted(lo.push(pivot) + hi),
{
    let s = lo.push(pivot) + hi;
    assert forall|i: int, j: int| 0 <= i < j < s.len() implies leq(
        #[trigger] s[i],
        #[trigger] s[j],
    ) by {
        if j < lo.len() {
            assert(s[i] == lo[i] && s[j] == lo[j]);
        } else if j == lo.len() {
            assert(s[i] == lo[i] && s[j] == pivot);
        } else if i < lo.len() {
            assert(s[i] == lo[i] && s[j] == hi[j - lo.len() - 1]);
            assert(leq(lo[i], pivot) && leq(pivot, hi[j - lo.len() - 1]));
        } else if i == lo.len() {
            assert(s[i] == pivot && s[j] == hi[j - lo.len() - 1]);
        } else {
            assert(s[i] == hi[i - lo.len() - 1] && s[j] == hi[j - lo.len() - 1]);
        }
    }
}

/// Permuting the parts on either side of a pivot keeps them on their side:
/// if every element of `lo` is `leq` the pivot and the pivot is `leq` every
/// element of `hi`, then sorted permutations of the two, with the pivot
/// between them, make a sorted sequence.
pub proof fn lemma_sorted_assembled<T: PartialOrd>(
    lo: Seq<T>,
    hi: Seq<T>,
    lo2: Seq<T>,
    hi2: Seq<T>,
    pivot: T,
)
    requires
        total_preorder::<T>(),
        permutation(lo2, lo),
        permutation(hi2, hi),
        sorted(lo2),
        sorted(hi2),
        forall|i: int| 0 <= i < lo.len() ==> leq(#[trigger] lo[i], pivot),
        forall|i: int| 0 <= i < hi.len() ==> leq(pivot, #[trigger] hi[i]),
    ensures
        sorted(lo2.push(pivot) + hi2),
{
    lemma_permutation_members(lo2, lo);
    lemma_permutation_members(hi2, hi);
    assert forall|i: int| 0 <= i < lo2.len() implies leq(#[trigger] lo2[i], pivot) by {
        assert(lo2.contains(lo2[i]));
        let k: int = choose|k: int| 0 <= k < lo.len() && lo[k] == lo2[i];
        assert(leq(lo[k], pivot));
    }
    assert forall|i: int| 0 <= i < hi2.len() implies leq(pivot, #[trigger] hi2[i]) by {
        assert(hi2.contains(hi2[i]));
        let k: int = choose|k: int| 0 <= k < hi.len() && hi[k] == hi2[i];
        assert(leq(pivot, hi[k]));
    }
    lemma_sorted_around_pivot(lo2, pivot, hi2);
}

/// A sorted sequence in which no two different elements are equivalent has
/// no other sorted permutation than itself.
pub proof fn lemma_sorted_permutation_unique<T: PartialOrd>(a: Seq<T>, b: Seq<T>)
    requires
        total_preorder::<T>(),
        sorted(a),
        sorted(b),
        permutation(a, b),
        antisymmetric_on(b),
    ensures
        a == b,
    decreases a.len(),
{
    lemma_permutation_members(a, b);
    if a.len() > 0 {
        assert(a.contains(a[0]) && b.contains(b[0]));
        let k: int = choose|k: int| 0 <= k < b.len() && b[k] == a[0];
        let m: int = choose|m: int| 0 <= m < a.len() && a[m] == b[0];
        assert(leq(b[0], b[k])) by {
            assert(leq(b[0], b[0]) || leq(b[0], b[0]));
        }
        assert(leq(a[0], a[m])) by {
            assert(leq(a[0], a[0]) || leq(a[0], a[0]));
        }
        assert(b[0] == b[k]);
        let a1 = a.drop_first();
        let b1 = b.drop_first();
        assert(permutation(a1, b1)) by {
            assert(a1 =~= a.remove(0) && b1 =~= b.remove(0));
            to_multiset_remove(a, 0);
            to_multiset_remove(b, 0);
        }
        assert forall|i: int, j: int| 0 <= i < j < a1.len() implies leq(
            #[trigger] a1[i],
            #[trigger] a1[j],
        ) by {
            assert(a1[i] == a[i + 1] && a1[j] == a[j + 1]);
        }
        assert forall|i: int, j: int| 0 <= i < j < b1.len() implies leq(
            #[trigger] b1[i],
            #[trigger] b1[j],
        ) by {
            assert(b1[i] == b[i + 1] && b1[j] == b[j + 1]);
        }
        assert forall|i: int, j: int|
            0 <= i < b1.len() && 0 <= j < b1.len() && leq(#[trigger] b1[i], #[trigger] b1[j])
                && leq(b1[j], b1[i]) implies b1[i] == b1[j] by {
            assert(b1[i] == b[i + 1] && b1[j] == b[j + 1]);
        }
        lemma_sorted_permutation_unique(a1, b1);
        assert(a =~= seq![a[0]] + a1);
        assert(b =~= seq![b[0]] + b1);
    } else {
        assert(a =~= b);
    }
}

/// Under a total order no sequence holds two different elements that are
/// equivalent.
pub proof fn lemma_total_order_antisymmetric_on<T: PartialOrd>(s: Seq<T>)
    requires
        total_order::<T>(),
    ensures
        antisymmetric_on(s),
{
}

/// Two sorted permutations of an input in which no two different elements
/// are equivalent are equal: whichever sort produced them, the output is the
/// same.
pub proof fn lemma_sorts_agree<T: PartialOrd>(input: Seq<T>, a: Seq<T>, b: Seq<T>)
    requires
        total_preorder::<T>(),
        antisymmetric_on(input),
        sorted(a),
        sorted(b),
        permutation(a, input),
        permutation(b, input),
    ensures
        a == b,
{
    lemma_permutation_members(b, input);
    assert forall|i: int, j: int|
        0 <= i < b.len() && 0 <= j < b.len() && leq(#[trigger] b[i], #[trigger] b[j]) && leq(
            b[j],
            b[i],
        ) implies b[i] == b[j] by {
        assert(b.contains(b[i]) && b.contains(b[j]));
        let m: int = choose|m: int| 0 <= m < input.len() && input[m] == b[i];
        let n: int = choose|n: int| 0 <= n < input.len() && input[n] == b[j];
        assert(leq(input[m], input[n]) && leq(input[n], input[m]));
    }
    lemma_sorted_permutation_unique(a, b);
}

/// One step of a sort that filters the tail twice, by "at most the first
/// element" and by "exceeds the first element": where any two values are
/// comparable, sorted permutations of the two parts, with the first element
/// between them, are a permutation of the whole, and sorted when the order is
/// a total preorder.
pub proof fn lemma_two_filters_sort<T: PartialOrd>(
    whole: Seq<T>,
    lower: Seq<T>,
    higher: Seq<T>,
    sorted_lower: Seq<T>,
    sorted_higher: Seq<T>,
)
    requires
        comparable::<T>(),
        whole.len() > 0,
        lower == whole.remove(0).filter(at_most(whole[0])),
        higher == whole.remove(0).filter(above(whole[0])),
        permutation(sorted_lower, lower),
        permutation(sorted_higher, higher),
        total_preorder::<T>() ==> sorted(sorted_lower) && sorted(sorted_higher),
    ensures
        permutation(sorted_lower.push(whole[0]) + sorted_higher, whole),
        total_preorder::<T>() ==> sorted(sorted_lower.push(whole[0]) + sorted_higher),
{
    broadcast use group_filter_ensures;

    let pivot = whole[0];
    let tail = whole.remove(0);
    assert forall|x: T| #[trigger] at_most(pivot)(x) <==> !above(pivot)(x) by {
        assert(exceeds(x, pivot) <==> !leq(x, pivot));
    }
    lemma_filter_split(tail, at_most(pivot), above(pivot));
    lemma_permutation_assembled(whole, 0, lower, higher, sorted_lower, sorted_higher);
    if total_preorder::<T>() {
        assert forall|i: int| 0 <= i < lower.len() implies leq(#[trigger] lower[i], pivot) by {
            assert(at_most(pivot)(tail.filter(at_most(pivot))[i]));
        }
        assert forall|i: int| 0 <= i < higher.len() implies leq(pivot, #[trigger] higher[i]) by {
            assert(above(pivot)(tail.filter(above(pivot))[i]));
            assert(exceeds(higher[i], pivot) <==> !leq(higher[i], pivot));
        }
        lemma_sorted_assembled(lower, higher, sorted_lower, sorted_higher, pivot);
    }
}

/// One step of a sort that splits the tail by "exceeds the first element":
/// sorted permutations of the two parts, with the first element between
/// them, are a permutation of the whole, and sorted when the order is a total
/// preorder.
pub proof fn lemma_split_above_sorts<T: PartialOrd>(
    whole: Seq<T>,
    lower: Seq<T>,
    higher: Seq<T>,
    sorted_lower: Seq<T>,
    sorted_higher: Seq<T>,
)
    requires
        whole.len() > 0,
        permutation(higher + lower, whole.remove(0)),
        compares_by_model::<T>() ==> higher == whole.remove(0).filter(above(whole[0])),
        compares_by_model::<T>() ==> lower == whole.remove(0).filter(not_above(whole[0])),
        permutation(sorted_lower, lower),
        permutation(sorted_higher, higher),
        total_preorder::<T>() ==> sorted(sorted_lower) && sorted(sorted_higher),
    ensures
        permutation(sorted_lower.push(whole[0]) + sorted_higher, whole),
        total_preorder::<T>() ==> sorted(sorted_lower.push(whole[0]) + sorted_higher),
{
    broadcast use group_filter_ensures;

    let pivot = whole[0];
    let tail = whole.remove(0);
    lemma_seq_union_to_multiset_commutative(higher, lower);
    lemma_permutation_assembled(whole, 0, lower, higher, sorted_lower, sorted_higher);
    if total_preorder::<T>() {
        assert forall|i: int| 0 <= i < lower.len() implies leq(#[trigger] lower[i], pivot) by {
            assert(not_above(pivot)(tail.filter(not_above(pivot))[i]));
            assert(exceeds(lower[i], pivot) <==> !leq(lower[i], pivot));
        }
        assert forall|i: int| 0 <= i < higher.len() implies leq(pivot, #[trigger] higher[i]) by {
            assert(above(pivot)(tail.filter(above(pivot))[i]));
            assert(exceeds(higher[i], pivot) <==> !leq(higher[i], pivot));
        }
        lemma_sorted_assembled(lower, higher, sorted_lower, sorted_higher, pivot);
    }
}

/// One step of a sort that splits the other elements by "at most the pivot":
/// sorted permutations of the two parts, with the pivot between them, are a
/// permutation of the whole, and sorted when the order is a total preorder.
pub proof fn lemma_split_around_sorts<T: PartialOrd>(
    whole: Seq<T>,
    k: int,
    lower: Seq<T>,
    higher: Seq<T>,
    sorted_lower: Seq<T>,
    sorted_higher: Seq<T>,
)
    requires
        0 <= k < whole.len(),
        permutation(lower + higher, whole.remove(k)),
        compares_by_model::<T>() ==> lower == whole.remove(k).filter(at_most(whole[k])),
        compares_by_model::<T>() ==> higher == whole.remove(k).filter(not_at_most(whole[k])),
        permutation(sorted_lower, lower),
        permutation(sorted_higher, higher),
        total_preorder::<T>() ==> sorted(sorted_lower) && sorted(sorted_higher),
    ensures
        permutation(sorted_lower.push(whole[k]) + sorted_higher, whole),
        total_preorder::<T>() ==> sorted(sorted_lower.push(whole[k]) + sorted_higher),
{
    broadcast use group_filter_ensures;

    let pivot = whole[k];
    let others = whole.remove(k);
    lemma_permutation_assembled(whole, k, lower, higher, sorted_lower, sorted_higher);
    if total_preorder::<T>() {
        assert forall|i: int| 0 <= i < lower.len() implies leq(#[trigger] lower[i], pivot) by {
            assert(at_most(pivot)(others.filter(at_most(pivot))[i]));
        }
        assert forall|i: int| 0 <= i < higher.len() implies leq(pivot, #[trigger] higher[i]) by {
            assert(not_at_most(pivot)(others.filter(not_at_most(pivot))[i]));
        }
        lemma_sorted_assembled(lower, higher, sorted_lower, sorted_higher, pivot);
    }
}

} // verus!
