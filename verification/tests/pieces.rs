use quicksort_bench::functional::{
    chain_around, clone_all, clones_above, clones_at_most, concat_around, join_around,
    split_above, split_around,
};
use quicksort_bench::order::{is_above, is_at_most};
use quicksort_bench::partition::{partition, partition_at, partition_first_value_pivot};

/// Checks what a partition step promises: the same elements, and the pivot at
/// `p` with nothing larger before it and nothing smaller or equal after it.
fn check_partitioned(before: &[u64], after: &[u64], p: usize) {
    assert_eq!(after.len(), before.len());
    let mut a = before.to_vec();
    let mut b = after.to_vec();
    a.sort();
    b.sort();
    assert_eq!(a, b);
    assert!(p < after.len());
    for k in 0..p {
        assert!(after[k] <= after[p]);
    }
    for k in p + 1..after.len() {
        assert!(after[k] > after[p]);
    }
}

#[test]
fn first_value_pivot_on_three_elements() {
    let mut arr: Vec<u64> = vec![3, 1, 2];
    let p = partition_first_value_pivot(&mut arr);
    assert_eq!(p, 2);
    assert_eq!(arr, vec![2, 1, 3]);
}

#[test]
fn first_value_pivot_on_six_elements() {
    let mut arr: Vec<u64> = vec![8, 5, 2, 6, 9, 3];
    let p = partition_first_value_pivot(&mut arr);
    assert_eq!(p, 4);
    assert_eq!(arr, vec![3, 5, 2, 6, 8, 9]);
}

#[test]
fn first_value_pivot_that_is_the_least() {
    let mut arr: Vec<u64> = vec![1, 9, 5, 7];
    let p = partition_first_value_pivot(&mut arr);
    assert_eq!(p, 0);
    assert_eq!(arr, vec![1, 9, 5, 7]);
}

#[test]
fn first_value_pivot_leaves_increasing_input_as_it_is() {
    let before: Vec<u64> = vec![1, 2, 3, 5, 8, 13, 21];
    let mut arr = before.clone();
    let p = partition_first_value_pivot(&mut arr);
    assert_eq!(p, 0);
    assert_eq!(arr, before);

    let mut arr = before.clone();
    let p = partition_at(&mut arr, 0);
    assert_eq!(p, 0);
    assert_eq!(arr, before);
}

#[test]
fn first_value_pivot_that_is_the_greatest() {
    // Every element is exchanged with itself during the scan, and the pivot
    // then changes places with the last one.
    let mut arr: Vec<u64> = vec![9, 1, 2, 3];
    let p = partition_first_value_pivot(&mut arr);
    assert_eq!(p, 3);
    assert_eq!(arr, vec![3, 1, 2, 9]);
}

#[test]
fn first_value_pivot_with_equal_elements() {
    let mut arr: Vec<u64> = vec![4, 4, 9, 4, 1];
    let p = partition_first_value_pivot(&mut arr);
    assert_eq!(p, 3);
    assert_eq!(arr, vec![1, 4, 4, 4, 9]);
}

#[test]
fn partition_at_a_chosen_index() {
    let mut arr: Vec<u64> = vec![5, 9, 1, 7];
    let p = partition_at(&mut arr, 2);
    assert_eq!(p, 0);
    assert_eq!(arr, vec![1, 9, 5, 7]);

    let mut arr: Vec<u64> = vec![5, 9, 1, 7];
    let p = partition_at(&mut arr, 3);
    assert_eq!(p, 2);
    assert_eq!(arr, vec![5, 1, 7, 9]);

    let mut arr: Vec<u64> = vec![5, 9, 1, 7];
    let p = partition_at(&mut arr, 1);
    assert_eq!(p, 3);
    assert_eq!(arr, vec![7, 5, 1, 9]);
}

#[test]
fn partition_at_every_index_separates() {
    let before: Vec<u64> = vec![16, 14, 1, 1, 7, 18, 7, 6, 8, 18, 5];
    for k in 0..before.len() {
        let mut arr = before.clone();
        let p = partition_at(&mut arr, k);
        assert_eq!(arr[p], before[k]);
        check_partitioned(&before, &arr, p);
    }
}

#[test]
fn random_partition_separates() {
    let before: Vec<u64> = vec![19, 18, 14, 15, 3, 9, 8, 2, 2, 20, 11];
    for _ in 0..100 {
        let mut arr = before.clone();
        let p = partition(&mut arr);
        assert!(before.contains(&arr[p]));
        check_partitioned(&before, &arr, p);
    }
}

#[test]
fn random_partition_reaches_every_pivot() {
    let before: Vec<u64> = vec![30, 10, 20];
    let mut seen = [false; 3];
    for _ in 0..500 {
        let mut arr = before.clone();
        let p = partition(&mut arr);
        seen[p] = true;
    }
    assert_eq!(seen, [true, true, true]);
}

#[test]
fn partition_of_nothing_or_one_is_a_no_op() {
    let mut empty: Vec<u64> = Vec::new();
    assert_eq!(partition(&mut empty), 0);
    assert_eq!(partition_first_value_pivot(&mut empty), 0);
    assert!(empty.is_empty());

    let mut one: Vec<u64> = vec![7];
    assert_eq!(partition(&mut one), 0);
    assert_eq!(one, vec![7]);
    assert_eq!(partition_first_value_pivot(&mut one), 0);
    assert_eq!(one, vec![7]);
    assert_eq!(partition_at(&mut one, 0), 0);
    assert_eq!(one, vec![7]);
}

#[test]
fn comparisons_against_a_pivot() {
    assert!(is_at_most(&3u64, &5u64));
    assert!(is_at_most(&5u64, &5u64));
    assert!(!is_at_most(&6u64, &5u64));
    assert!(is_above(&6u64, &5u64));
    assert!(!is_above(&5u64, &5u64));
    assert!(!is_above(&3u64, &5u64));
}

#[test]
fn clone_all_copies_in_order() {
    let items: Vec<u64> = vec![3, 1, 2, 1];
    assert_eq!(clone_all(&items), items);
    let none: Vec<u64> = Vec::new();
    assert_eq!(clone_all(&none), none);
}

#[test]
fn two_filters_around_a_pivot() {
    let items: Vec<u64> = vec![5, 1, 9, 5, 7, 0];
    assert_eq!(clones_above(&items, &5), vec![9, 7]);
    assert_eq!(clones_at_most(&items, &5), vec![5, 1, 5, 0]);
    assert_eq!(clones_above(&items, &9), Vec::<u64>::new());
    assert_eq!(clones_at_most(&items, &9), items);
}

#[test]
fn split_above_keeps_order_in_both_parts() {
    let items: Vec<u64> = vec![5, 1, 9, 5, 7, 0];
    let (higher, lower) = split_above(&items, &5);
    assert_eq!(higher, vec![9, 7]);
    assert_eq!(lower, vec![5, 1, 5, 0]);
    let none: Vec<u64> = Vec::new();
    let (higher, lower) = split_above(&none, &5);
    assert!(higher.is_empty() && lower.is_empty());
}

#[test]
fn split_around_leaves_out_only_the_pivot() {
    let array: Vec<u64> = vec![4, 1, 7, 4, 9];
    let (lower, pivot, higher) = split_around(&array, 3);
    assert_eq!(pivot, 4);
    assert_eq!(lower, vec![4, 1]);
    assert_eq!(higher, vec![7, 9]);

    let (lower, pivot, higher) = split_around(&array, 0);
    assert_eq!(pivot, 4);
    assert_eq!(lower, vec![1, 4]);
    assert_eq!(higher, vec![7, 9]);

    let (lower, pivot, higher) = split_around(&array, 4);
    assert_eq!(pivot, 9);
    assert_eq!(lower, vec![4, 1, 7, 4]);
    assert_eq!(higher, Vec::<u64>::new());
}

#[test]
fn three_ways_to_join_around_a_pivot() {
    let lo: Vec<u64> = vec![1, 2];
    let hi: Vec<u64> = vec![8, 9];
    let expected: Vec<u64> = vec![1, 2, 5, 8, 9];
    assert_eq!(concat_around(&lo, &5, &hi), expected);
    assert_eq!(chain_around(&lo, &5, &hi), expected);
    assert_eq!(join_around(lo.clone(), 5, hi.clone()), expected);

    let none: Vec<u64> = Vec::new();
    assert_eq!(concat_around(&none, &5, &none), vec![5]);
    assert_eq!(chain_around(&none, &5, &hi), vec![5, 8, 9]);
    assert_eq!(join_around(lo, 5, none), vec![1, 2, 5]);
}
