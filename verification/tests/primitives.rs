//! Checks of the sort kernel, the offset filter and the multi-column dedup.

use consolidation::{
    dedup_payload_starting_at, quicksort, retain_starting_at, KeyPair, NonZeroWeight,
};

#[test]
fn quicksort_sorts_and_carries_companions() {
    let mut keys: Vec<u64> = vec![30, 10, 50, 20, 40];
    let mut values: Vec<u64> = vec![3, 1, 5, 2, 4];
    quicksort(&mut keys, &mut values);
    assert_eq!(keys, vec![10, 20, 30, 40, 50]);
    assert_eq!(values, vec![1, 2, 3, 4, 5]);
}

#[test]
fn quicksort_matches_a_standard_sort_on_distinct_keys() {
    let mut keys: Vec<u64> = vec![12, 7, 3, 99, 55, 0, 41, 8, 23, 77, 5, 64];
    let mut values: Vec<i64> = vec![-1, -2, -3, -4, -5, -6, -7, -8, -9, -10, -11, -12];
    let mut expected: Vec<(u64, i64)> =
        keys.iter().copied().zip(values.iter().copied()).collect();
    expected.sort_by_key(|&(k, _)| k);
    quicksort(&mut keys, &mut values);
    let got: Vec<(u64, i64)> = keys.iter().copied().zip(values.iter().copied()).collect();
    assert_eq!(got, expected);
}

#[test]
fn quicksort_handles_duplicates_and_large_input() {
    let mut keys: Vec<u64> = (0..200).map(|i| (i * 37 + 11) % 50).collect();
    let mut values: Vec<u64> = (0..200).collect();
    let mut expected_keys = keys.clone();
    expected_keys.sort();
    quicksort(&mut keys, &mut values);
    assert_eq!(keys, expected_keys);
    // every (key, value) pair of the output was an input pair
    let mut pairs: Vec<(u64, u64)> = keys.iter().copied().zip(values.iter().copied()).collect();
    pairs.sort();
    let mut expected_pairs: Vec<(u64, u64)> =
        (0..200u64).map(|i| ((i * 37 + 11) % 50, i)).collect();
    expected_pairs.sort();
    assert_eq!(pairs, expected_pairs);
}

#[test]
fn quicksort_empty_and_single() {
    let mut keys: Vec<u64> = vec![];
    let mut values: Vec<u64> = vec![];
    quicksort(&mut keys, &mut values);
    assert_eq!(keys, vec![]);
    let mut keys1: Vec<u64> = vec![9];
    let mut values1: Vec<u64> = vec![1];
    quicksort(&mut keys1, &mut values1);
    assert_eq!(keys1, vec![9]);
    assert_eq!(values1, vec![1]);
}

#[test]
fn retain_with_offset_zero_is_a_stable_filter() {
    let mut v: Vec<i64> = vec![0, 3, 0, -2, 5, 0, 7];
    retain_starting_at(&mut v, 0, NonZeroWeight);
    let expected: Vec<i64> = vec![3, -2, 5, 7];
    assert_eq!(v, expected);
}

#[test]
fn retain_leaves_the_prefix_alone() {
    let mut v: Vec<i64> = vec![0, 0, 4, 0, 6];
    retain_starting_at(&mut v, 2, NonZeroWeight);
    assert_eq!(v, vec![0, 0, 4, 6]);
}

#[test]
fn retain_on_records() {
    let k = |m: u64| KeyPair { major: m, minor: 0 };
    let mut v: Vec<(KeyPair, i64)> = vec![(k(1), 0), (k(2), 5), (k(3), 0), (k(4), -1)];
    retain_starting_at(&mut v, 0, NonZeroWeight);
    assert_eq!(v, vec![(k(2), 5), (k(4), -1)]);
}

#[test]
fn dedup_without_payload_matches_adjacent_dedup() {
    let mut keys: Vec<u64> = vec![1, 1, 2, 3, 3, 3, 2, 2];
    let mut no_payload = ();
    dedup_payload_starting_at(&mut keys, &mut no_payload, 0);
    assert_eq!(keys, vec![1, 2, 3, 2]);
}

#[test]
fn dedup_reshapes_a_single_payload_column() {
    let mut keys: Vec<u64> = vec![1, 1, 2, 2, 2, 5];
    let mut values: Vec<i64> = vec![10, 11, 20, 21, 22, 50];
    dedup_payload_starting_at(&mut keys, &mut values, 0);
    assert_eq!(keys, vec![1, 2, 5]);
    assert_eq!(values, vec![10, 20, 50]);
}

#[test]
fn dedup_reshapes_nested_payload_columns_identically() {
    let mut keys: Vec<u64> = vec![7, 7, 8, 9, 9];
    let first: Vec<i64> = vec![1, 2, 3, 4, 5];
    let second: Vec<u64> = vec![10, 20, 30, 40, 50];
    let third: Vec<u64> = vec![100, 200, 300, 400, 500];
    let mut payload = (first, (second, third));
    dedup_payload_starting_at(&mut keys, &mut payload, 0);
    assert_eq!(keys, vec![7, 8, 9]);
    assert_eq!(payload.0, vec![1, 3, 4]);
    assert_eq!(payload.1 .0, vec![10, 30, 40]);
    assert_eq!(payload.1 .1, vec![100, 300, 400]);
}

#[test]
fn dedup_folds_a_suffix_run_into_the_prefix() {
    // index 0 is the untouched prefix; the first suffix element carries the
    // same key and is folded away
    let mut keys: Vec<u64> = vec![4, 4, 4, 6];
    let mut values: Vec<i64> = vec![1, 2, 3, 4];
    dedup_payload_starting_at(&mut keys, &mut values, 1);
    assert_eq!(keys, vec![4, 6]);
    assert_eq!(values, vec![1, 4]);
}
