//! The laws of sketches, on values.

use anomstream_core::{HyperLogLog, MAX_PRECISION, MIN_PRECISION};

/// A sketch of some hashes.
fn sketch(precision: u8, hashes: &[u64]) -> HyperLogLog {
    let mut hll = HyperLogLog::new(precision).unwrap();
    for &hash in hashes {
        hll.add_hash(hash);
    }
    hll
}

/// The registers of a sketch.
fn registers(hll: &HyperLogLog) -> Vec<u8> {
    hll.to_shadow().registers
}

/// Well spread hashes.
fn hashes(seed: u64, count: u64) -> Vec<u64> {
    (0..count)
        .map(|i| {
            let z = (seed ^ i).wrapping_mul(0x9e37_79b9_7f4a_7c15);
            let z = (z ^ (z >> 29)).wrapping_mul(0xbf58_476d_1ce4_e5b9);
            z ^ (z >> 32)
        })
        .collect()
}

#[test]
fn repeated_value_leaves_the_registers() {
    let mut hll = sketch(6, &hashes(1, 50));
    let before = registers(&hll);
    let estimate = hll.estimate();
    for hash in hashes(1, 50) {
        hll.add_hash(hash);
    }
    assert_eq!(registers(&hll), before);
    assert_eq!(hll.estimate(), estimate);
    assert_eq!(hll.total_added(), 100);
}

#[test]
fn repeated_key_leaves_the_registers() {
    let mut hll = HyperLogLog::with_default_precision();
    hll.add_bytes(b"10.0.0.1");
    let before = registers(&hll);
    hll.add_bytes(b"10.0.0.1");
    assert_eq!(registers(&hll), before);
    assert_eq!(hll.estimate(), 1);
    assert_eq!(hll.total_added(), 2);
}

#[test]
fn added_value_counts_once() {
    let mut hll = HyperLogLog::new(8).unwrap();
    hll.add("first");
    for hash in hashes(20, 30) {
        hll.add_hash(hash);
    }
    let before = registers(&hll);
    let estimate = hll.estimate();
    hll.add("first");
    assert_eq!(registers(&hll), before);
    assert_eq!(hll.estimate(), estimate);
    hll.add("second");
    assert_ne!(registers(&hll), before);
}

#[test]
fn key_is_one_value_by_either_way() {
    for key in [&b""[..], &b"\0"[..], &b"10.0.0.1"[..], &[255_u8; 40][..]] {
        let mut by_bytes = HyperLogLog::new(10).unwrap();
        by_bytes.add_bytes(key);
        let mut by_value = HyperLogLog::new(10).unwrap();
        by_value.add(key);
        assert_eq!(registers(&by_bytes), registers(&by_value));
        assert_eq!(by_bytes.estimate(), by_value.estimate());
        assert_eq!(by_bytes.total_added(), by_value.total_added());
        by_bytes.add(key);
        assert_eq!(registers(&by_bytes), registers(&by_value));
        assert_eq!(by_bytes.estimate(), 1);
    }
}

#[test]
fn order_of_values_does_not_matter() {
    let forward = hashes(2, 300);
    let backward: Vec<u64> = forward.iter().rev().copied().collect();
    let a = sketch(8, &forward);
    let b = sketch(8, &backward);
    assert_eq!(registers(&a), registers(&b));
    assert_eq!(a.total_added(), b.total_added());
}

#[test]
fn registers_hold_the_largest_ranks() {
    let all = hashes(3, 400);
    let hll = sketch(5, &all);
    for (i, &register) in registers(&hll).iter().enumerate() {
        let largest = all
            .iter()
            .filter(|&&hash| (hash >> 59) as usize == i)
            .map(|&hash| ((hash << 5).leading_zeros() + 1).min(60))
            .max()
            .unwrap_or(0);
        assert_eq!(u32::from(register), largest);
    }
}

#[test]
fn value_touches_one_register_and_none_decreases() {
    let mut hll = HyperLogLog::new(4).unwrap();
    for hash in hashes(4, 200) {
        let before = registers(&hll);
        hll.add_hash(hash);
        let after = registers(&hll);
        for i in 0..16 {
            if i == (hash >> 60) as usize {
                assert!(after[i] >= before[i]);
                assert!(after[i] >= 1 && after[i] <= 61);
            } else {
                assert_eq!(after[i], before[i]);
            }
        }
    }
}

#[test]
fn merge_is_the_sketch_of_all_values() {
    for p in MIN_PRECISION..=MAX_PRECISION {
        let left = hashes(5, 700);
        let right = hashes(6, 900);
        let mut merged = sketch(p, &left);
        merged.merge(&sketch(p, &right)).unwrap();
        let all: Vec<u64> = left.iter().chain(right.iter()).copied().collect();
        let single = sketch(p, &all);
        assert_eq!(registers(&merged), registers(&single));
        assert_eq!(merged.total_added(), single.total_added());
        assert_eq!(merged.estimate(), single.estimate());
    }
}

#[test]
fn merge_commutes_and_associates() {
    let a = sketch(7, &hashes(7, 100));
    let b = sketch(7, &hashes(8, 100));
    let c = sketch(7, &hashes(9, 100));
    let mut ab = a.clone();
    ab.merge(&b).unwrap();
    let mut ba = b.clone();
    ba.merge(&a).unwrap();
    assert_eq!(registers(&ab), registers(&ba));
    assert_eq!(ab.total_added(), ba.total_added());
    let mut left = ab.clone();
    left.merge(&c).unwrap();
    let mut bc = b.clone();
    bc.merge(&c).unwrap();
    let mut right = a.clone();
    right.merge(&bc).unwrap();
    assert_eq!(registers(&left), registers(&right));
    assert_eq!(left.total_added(), right.total_added());
    for i in 0..128 {
        assert_eq!(registers(&ab)[i], registers(&a)[i].max(registers(&b)[i]));
    }
}

#[test]
fn merge_with_itself_or_nothing_leaves_the_registers() {
    let mut a = sketch(7, &hashes(10, 60));
    let before = registers(&a);
    a.merge(&HyperLogLog::new(7).unwrap()).unwrap();
    assert_eq!(registers(&a), before);
    assert_eq!(a.total_added(), 60);
    let copy = a.clone();
    a.merge(&copy).unwrap();
    assert_eq!(registers(&a), before);
    assert_eq!(a.total_added(), 120);
    let mut empty = HyperLogLog::new(7).unwrap();
    empty.merge(&copy).unwrap();
    assert_eq!(registers(&empty), before);
}

#[test]
fn merge_and_values_may_come_in_any_order() {
    let mut early = sketch(6, &hashes(11, 40));
    let mut late = early.clone();
    let other = sketch(6, &hashes(12, 40));
    early.merge(&other).unwrap();
    early.add_hash(99);
    late.add_hash(99);
    late.merge(&other).unwrap();
    assert_eq!(registers(&early), registers(&late));
    assert_eq!(early.total_added(), late.total_added());
}

#[test]
fn reset_makes_a_sketch_new() {
    let mut hll = sketch(9, &hashes(13, 500));
    hll.reset();
    let new = HyperLogLog::new(9).unwrap();
    assert_eq!(registers(&hll), registers(&new));
    assert_eq!(hll.precision(), 9);
    hll.add_hash(12345);
    assert_eq!(hll.estimate(), 1);
}

#[test]
fn few_values_with_registers_of_their_own_are_counted_exactly() {
    // One value for each of the first registers.
    for count in 0..=45_u64 {
        let apart: Vec<u64> = (0..count).map(|i| (i << 52) | (i * 31)).collect();
        assert_eq!(sketch(12, &apart).estimate(), count);
    }
}
