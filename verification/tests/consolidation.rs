//! Scenario and property checks for the consolidation engine, on concrete
//! values.

use consolidation::{
    consolidate, consolidate_from, consolidate_paired_slices, consolidate_payload_from,
    consolidate_slice, KeyPair,
};
use std::collections::BTreeMap;

fn kp(major: u64, minor: u64) -> KeyPair {
    KeyPair { major, minor }
}

fn sums(records: &[(KeyPair, i64)]) -> BTreeMap<(u64, u64), i64> {
    let mut out = BTreeMap::new();
    for &(k, w) in records {
        *out.entry((k.major, k.minor)).or_insert(0) += w;
    }
    out.retain(|_, w| *w != 0);
    out
}

#[test]
fn scenario_full_cancellation() {
    let mut batch = vec![(kp(1, 1), 5), (kp(2, 2), -3), (kp(1, 1), -5), (kp(2, 2), 3)];
    consolidate(&mut batch);
    assert_eq!(batch, vec![]);
}

#[test]
fn scenario_duplicate_keys_fold() {
    let mut batch = vec![(kp(1, 1), 5), (kp(1, 1), 2)];
    consolidate(&mut batch);
    assert_eq!(batch, vec![(kp(1, 1), 7)]);
}

#[test]
fn scenario_boundary_crossing_cancellation() {
    // prefix [((1,1),7)] is canonical; the appended suffix cancels it and
    // introduces a new key
    let mut batch = vec![(kp(1, 1), 7), (kp(1, 1), -7), (kp(2, 2), 4)];
    consolidate_from(&mut batch, 1);
    assert_eq!(batch, vec![(kp(2, 2), 4)]);
}

#[test]
fn output_is_sorted_and_zero_free_and_sum_preserving() {
    let input = vec![
        (kp(9, 0), 4),
        (kp(2, 7), -1),
        (kp(9, 0), -4),
        (kp(2, 5), 3),
        (kp(0, 0), 1),
        (kp(2, 7), 6),
        (kp(2, 5), -1),
    ];
    let expected = sums(&input);
    let mut batch = input.clone();
    consolidate(&mut batch);
    for pair in batch.windows(2) {
        let a = (pair[0].0.major, pair[0].0.minor);
        let b = (pair[1].0.major, pair[1].0.minor);
        assert!(a < b);
    }
    assert!(batch.iter().all(|&(_, w)| w != 0));
    assert_eq!(sums(&batch), expected);
}

#[test]
fn consolidate_is_idempotent() {
    let mut batch = vec![
        (kp(3, 3), 2),
        (kp(1, 1), 5),
        (kp(3, 3), -1),
        (kp(1, 1), -5),
        (kp(2, 2), 9),
    ];
    consolidate(&mut batch);
    let once = batch.clone();
    consolidate(&mut batch);
    assert_eq!(batch, once);
    assert_eq!(batch.len(), once.len());
}

#[test]
fn layouts_agree() {
    let input = vec![
        (kp(5, 5), 2),
        (kp(1, 2), -2),
        (kp(5, 5), 1),
        (kp(1, 2), 2),
        (kp(4, 0), 0),
        (kp(7, 7), -3),
    ];
    let expected = {
        let mut v = input.clone();
        consolidate(&mut v);
        v
    };

    let mut sliced = input.clone();
    let len = consolidate_slice(&mut sliced);
    sliced.truncate(len);
    assert_eq!(sliced, expected);

    let mut offset_zero = input.clone();
    consolidate_from(&mut offset_zero, 0);
    assert_eq!(offset_zero, expected);

    let mut keys: Vec<KeyPair> = input.iter().map(|&(k, _)| k).collect();
    let mut diffs: Vec<i64> = input.iter().map(|&(_, w)| w).collect();
    let len = consolidate_paired_slices(&mut keys, &mut diffs);
    keys.truncate(len);
    diffs.truncate(len);
    let paired: Vec<(KeyPair, i64)> =
        keys.iter().copied().zip(diffs.iter().copied()).collect();
    assert_eq!(paired, expected);

    let mut keys2: Vec<KeyPair> = input.iter().map(|&(k, _)| k).collect();
    let mut diffs2: Vec<i64> = input.iter().map(|&(_, w)| w).collect();
    consolidate_payload_from(&mut keys2, &mut diffs2, 0);
    let paired2: Vec<(KeyPair, i64)> =
        keys2.iter().copied().zip(diffs2.iter().copied()).collect();
    assert_eq!(paired2, expected);
}

#[test]
fn consolidate_empty_batch() {
    let mut batch: Vec<(KeyPair, i64)> = vec![];
    consolidate(&mut batch);
    assert_eq!(batch, vec![]);
    consolidate_from(&mut batch, 0);
    assert_eq!(batch, vec![]);
}

#[test]
fn consolidate_zero_weight_inputs_vanish() {
    let mut batch = vec![(kp(1, 1), 0), (kp(2, 2), 0)];
    consolidate(&mut batch);
    assert_eq!(batch, vec![]);
}

#[test]
fn consolidate_slice_reports_length_without_truncating() {
    let mut batch = vec![(kp(2, 2), 1), (kp(1, 1), 1), (kp(1, 1), 1)];
    let len = consolidate_slice(&mut batch);
    assert_eq!(len, 2);
    assert_eq!(batch.len(), 3);
    assert_eq!(&batch[..len], &[(kp(1, 1), 2), (kp(2, 2), 1)]);
}

#[test]
fn consolidate_from_keeps_untouched_prefix() {
    let mut batch = vec![
        (kp(1, 0), 3),
        (kp(2, 0), 4),
        (kp(9, 9), 1),
        (kp(2, 0), -1),
        (kp(5, 5), 2),
    ];
    consolidate_from(&mut batch, 2);
    assert_eq!(
        batch,
        vec![(kp(1, 0), 3), (kp(2, 0), 3), (kp(5, 5), 2), (kp(9, 9), 1)]
    );
}

#[test]
fn paired_slices_with_u64_keys() {
    let mut keys: Vec<u64> = vec![4, 2, 4, 2, 8];
    let mut diffs: Vec<i64> = vec![1, 3, -1, 2, 10];
    let len = consolidate_paired_slices(&mut keys, &mut diffs);
    keys.truncate(len);
    diffs.truncate(len);
    assert_eq!(keys, vec![2, 8]);
    assert_eq!(diffs, vec![5, 10]);
}
