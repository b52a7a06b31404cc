//! The sketch as its users see it.

use std::hash::{DefaultHasher, Hash, Hasher};

use anomstream_core::{
    HyperLogLog, HyperLogLogShadow, RcfError, DEFAULT_PRECISION, MAX_PRECISION, MIN_PRECISION,
};

/// The bytes of a sketch on the wire.
fn encode(shadow: HyperLogLogShadow) -> Vec<u8> {
    let fields: (u8, Vec<u8>, u64) = (shadow.precision, shadow.registers, shadow.total_added);
    postcard::to_allocvec(&fields).expect("serde ok")
}

/// The sketch that such bytes spell.
fn decode(bytes: &[u8]) -> Result<HyperLogLog, RcfError> {
    let fields: (u8, Vec<u8>, u64) = postcard::from_bytes(bytes).expect("serde ok");
    HyperLogLog::try_from(HyperLogLogShadow {
        precision: fields.0,
        registers: fields.1,
        total_added: fields.2,
    })
}

#[test]
fn new_rejects_out_of_range_precision() {
    assert!(HyperLogLog::new(3).is_err());
    assert!(HyperLogLog::new(17).is_err());
    assert!(HyperLogLog::new(MIN_PRECISION).is_ok());
    assert!(HyperLogLog::new(MAX_PRECISION).is_ok());
}

#[test]
fn empty_sketch_estimates_zero() {
    let hll = HyperLogLog::with_default_precision();
    assert_eq!(hll.estimate(), 0);
}

#[test]
fn exact_cardinality_at_tiny_scale() {
    // Linear-counting regime: small cardinality should land very close to the truth.
    let mut hll = HyperLogLog::with_default_precision();
    for i in 0..10_u32 {
        hll.add(&i.to_le_bytes());
    }
    let est = hll.estimate();
    assert!(est >= 9 && est <= 11, "est {est}");
}

#[test]
fn estimates_within_5pct_at_10k_distinct() {
    let mut hll = HyperLogLog::with_default_precision();
    for i in 0..10_000_u32 {
        hll.add(&i.to_le_bytes());
    }
    let est = hll.estimate();
    let err = (est as i64 - 10_000).unsigned_abs() as f64 / 10_000.0;
    assert!(err < 0.05, "err {err:.4}, est {est}");
}

#[test]
fn estimates_within_3pct_at_100k_distinct_p14() {
    let mut hll = HyperLogLog::new(14).expect("p=14 in range");
    for i in 0..100_000_u32 {
        hll.add(&i.to_le_bytes());
    }
    let est = hll.estimate();
    let err = (est as i64 - 100_000).unsigned_abs() as f64 / 100_000.0;
    assert!(err < 0.03, "err {err:.4}, est {est}");
}

#[test]
fn duplicate_inserts_do_not_inflate_estimate() {
    let mut hll = HyperLogLog::with_default_precision();
    for _ in 0..1_000 {
        for i in 0..100_u32 {
            hll.add(&i.to_le_bytes());
        }
    }
    let est = hll.estimate();
    // Ingested 100k times but only 100 distinct values.
    assert!(est >= 90 && est <= 110, "est {est}");
    assert_eq!(hll.total_added(), 100_000);
}

#[test]
fn merge_agrees_with_single_sketch() {
    let mut a = HyperLogLog::with_default_precision();
    let mut b = HyperLogLog::with_default_precision();
    let mut full = HyperLogLog::with_default_precision();
    for i in 0..5_000_u32 {
        a.add(&i.to_le_bytes());
        full.add(&i.to_le_bytes());
    }
    for i in 5_000..10_000_u32 {
        b.add(&i.to_le_bytes());
        full.add(&i.to_le_bytes());
    }
    a.merge(&b).expect("same precision");
    let merged_est = a.estimate();
    let full_est = full.estimate();
    let delta = (merged_est as i64 - full_est as i64).unsigned_abs();
    assert!(
        delta < 200,
        "delta {delta}, merged {merged_est}, full {full_est}"
    );
}

#[test]
fn merge_rejects_precision_mismatch() {
    let mut a = HyperLogLog::new(10).unwrap();
    let b = HyperLogLog::new(12).unwrap();
    assert!(a.merge(&b).is_err());
}

#[test]
fn reset_clears_all_registers_and_counter() {
    let mut hll = HyperLogLog::with_default_precision();
    for i in 0..1_000_u32 {
        hll.add(&i.to_le_bytes());
    }
    assert!(hll.estimate() > 0);
    hll.reset();
    assert_eq!(hll.estimate(), 0);
    assert_eq!(hll.total_added(), 0);
}

#[test]
fn add_hash_path_matches_add_bytes_path() {
    let mut a = HyperLogLog::with_default_precision();
    let mut b = HyperLogLog::with_default_precision();
    for i in 0..1_000_u32 {
        let bytes = i.to_le_bytes();
        a.add_bytes(&bytes);
        // Mirror the same hash DefaultHasher produces.
        let mut h = DefaultHasher::new();
        bytes.hash(&mut h);
        b.add_hash(h.finish());
    }
    // Bit-exact agreement: same hash, same register update.
    assert_eq!(a.estimate(), b.estimate());
}

#[test]
fn memory_bytes_matches_register_count() {
    let hll = HyperLogLog::new(12).unwrap();
    assert_eq!(hll.memory_bytes(), 4096);
    let hll16 = HyperLogLog::new(16).unwrap();
    assert_eq!(hll16.memory_bytes(), 65_536);
}

#[test]
fn postcard_roundtrip_preserves_estimate() {
    let mut hll = HyperLogLog::with_default_precision();
    for i in 0..5_000_u32 {
        hll.add(&i.to_le_bytes());
    }
    let before = hll.estimate();
    let bytes = encode(hll.to_shadow());
    let back = decode(&bytes).expect("serde ok");
    assert_eq!(back.estimate(), before);
    assert_eq!(back.total_added(), hll.total_added());
}

#[test]
fn deserialize_rejects_out_of_range_precision() {
    let bad = HyperLogLogShadow {
        precision: MAX_PRECISION + 1,
        registers: vec![0_u8; 1 << MAX_PRECISION],
        total_added: 0,
    };
    let bytes = encode(bad);
    let back = decode(&bytes);
    assert!(back.is_err());
}

#[test]
fn deserialize_rejects_register_length_mismatch() {
    let bad = HyperLogLogShadow {
        precision: DEFAULT_PRECISION,
        registers: vec![0_u8; 10], // should be 4096.
        total_added: 0,
    };
    let bytes = encode(bad);
    let back = decode(&bytes);
    assert!(back.is_err());
}

/// The text that an error carries.
fn text(error: RcfError) -> String {
    match error {
        RcfError::InvalidConfig(text) => text,
    }
}

#[test]
fn new_names_the_precision_that_it_refuses() {
    assert_eq!(
        text(HyperLogLog::new(3).unwrap_err()),
        "HyperLogLog: precision 3 out of [4, 16]"
    );
    assert_eq!(
        text(HyperLogLog::new(255).unwrap_err()),
        "HyperLogLog: precision 255 out of [4, 16]"
    );
    assert_eq!(
        text(HyperLogLog::new(0).unwrap_err()),
        "HyperLogLog: precision 0 out of [4, 16]"
    );
}

#[test]
fn try_from_checks_the_precision_before_the_length() {
    let raw = HyperLogLogShadow { precision: 17, registers: vec![0_u8; 10], total_added: 0 };
    assert_eq!(
        text(HyperLogLog::try_from(raw).unwrap_err()),
        "HyperLogLog: precision 17 out of [4, 16]"
    );
}

#[test]
fn try_from_names_both_lengths() {
    let raw = HyperLogLogShadow { precision: 12, registers: vec![0_u8; 10], total_added: 0 };
    assert_eq!(
        text(HyperLogLog::try_from(raw).unwrap_err()),
        "HyperLogLog: register bank length 10 != expected 4096 for precision 12"
    );
    let raw = HyperLogLogShadow { precision: 4, registers: vec![0_u8; 70_000], total_added: 0 };
    assert_eq!(
        text(HyperLogLog::try_from(raw).unwrap_err()),
        "HyperLogLog: register bank length 70000 != expected 16 for precision 4"
    );
    let raw = HyperLogLogShadow { precision: 4, registers: Vec::new(), total_added: 0 };
    assert_eq!(
        text(HyperLogLog::try_from(raw).unwrap_err()),
        "HyperLogLog: register bank length 0 != expected 16 for precision 4"
    );
}

#[test]
fn try_from_takes_the_parts_as_they_are() {
    let registers: Vec<u8> = vec![0, 1, 2, 3, 4, 5, 6, 7, 8, 9, 10, 11, 12, 200, 254, 255];
    let raw = HyperLogLogShadow { precision: 4, registers: registers.clone(), total_added: 9 };
    let hll = HyperLogLog::try_from(raw).unwrap();
    let back = hll.to_shadow();
    assert_eq!(back.precision, 4);
    assert_eq!(back.registers, registers);
    assert_eq!(back.total_added, 9);
}

#[test]
fn merge_names_both_precisions_and_changes_nothing() {
    let mut a = HyperLogLog::new(10).unwrap();
    a.add_hash(77);
    let b = HyperLogLog::new(12).unwrap();
    let before = a.to_shadow();
    assert_eq!(
        text(a.merge(&b).unwrap_err()),
        "HyperLogLog::merge: precision mismatch (10 vs 12)"
    );
    let after = a.to_shadow();
    assert_eq!(after.registers, before.registers);
    assert_eq!(after.total_added, before.total_added);
    assert_eq!(after.precision, 10);
}

#[test]
fn precisions_are_named_in_the_module_of_the_sketch() {
    assert_eq!(anomstream_core::hyperloglog::MIN_PRECISION, 4);
    assert_eq!(anomstream_core::hyperloglog::MAX_PRECISION, 16);
    assert_eq!(anomstream_core::hyperloglog::DEFAULT_PRECISION, 12);
}

#[test]
fn register_counts_for_every_precision() {
    for p in MIN_PRECISION..=MAX_PRECISION {
        let hll = HyperLogLog::new(p).unwrap();
        assert_eq!(hll.register_count(), 1_usize << p);
        assert_eq!(hll.memory_bytes(), hll.register_count());
        assert_eq!(hll.precision(), p);
        assert_eq!(hll.total_added(), 0);
    }
    assert_eq!(HyperLogLog::with_default_precision().precision(), DEFAULT_PRECISION);
}

#[test]
fn add_hash_routes_by_the_top_bits_and_ranks_the_rest() {
    // Index bits 0b0011, and a one right below them.
    let mut hll = HyperLogLog::new(4).unwrap();
    hll.add_hash(0x3800_0000_0000_0000);
    assert_eq!(hll.to_shadow().registers[3], 1);
    // Four zeros in front of the first one.
    hll.add_hash(0x5080_0000_0000_0000);
    assert_eq!(hll.to_shadow().registers[5], 5);
    // Nothing but zeros below the index.
    hll.add_hash(0xf000_0000_0000_0000);
    assert_eq!(hll.to_shadow().registers[15], 61);
    // A one in the last place.
    hll.add_hash(0xe000_0000_0000_0001);
    assert_eq!(hll.to_shadow().registers[14], 60);
    // A smaller rank leaves a register alone; a larger one replaces it.
    hll.add_hash(0xffff_ffff_ffff_ffff);
    assert_eq!(hll.to_shadow().registers[15], 61);
    hll.add_hash(0x3100_0000_0000_0000);
    assert_eq!(hll.to_shadow().registers[3], 4);
    assert_eq!(hll.total_added(), 6);

    let mut wide = HyperLogLog::new(16).unwrap();
    wide.add_hash(0x1234_0000_0000_0000);
    assert_eq!(wide.to_shadow().registers[0x1234], 49);
    wide.add_hash(0xffff_8000_0000_0000);
    assert_eq!(wide.to_shadow().registers[0xffff], 1);
}

#[test]
fn counter_saturates() {
    let raw = HyperLogLogShadow {
        precision: 4,
        registers: vec![0_u8; 16],
        total_added: u64::MAX - 1,
    };
    let mut hll = HyperLogLog::try_from(raw).unwrap();
    hll.add_hash(1);
    assert_eq!(hll.total_added(), u64::MAX);
    hll.add_hash(2);
    assert_eq!(hll.total_added(), u64::MAX);
    let other = hll.clone();
    hll.merge(&other).unwrap();
    assert_eq!(hll.total_added(), u64::MAX);
}

#[test]
fn byte_keys_go_through_the_default_hasher() {
    // A key of its own per sketch: the register that it reaches is the one its digest names.
    for i in 0..200_u64 {
        let key = (i * 7919).to_be_bytes();
        let mut h = DefaultHasher::new();
        key[..].hash(&mut h);
        let digest = h.finish();
        let mut by_key = HyperLogLog::new(8).unwrap();
        by_key.add_bytes(&key);
        let mut by_digest = HyperLogLog::new(8).unwrap();
        by_digest.add_hash(digest);
        assert_eq!(by_key.to_shadow().registers, by_digest.to_shadow().registers);
        let reached = by_key.to_shadow().registers[(digest >> 56) as usize];
        assert_eq!(u32::from(reached), (digest << 8).leading_zeros() + 1);
    }
    // The length of a key counts too.
    let mut empty = HyperLogLog::new(16).unwrap();
    empty.add_bytes(&[]);
    let mut zero = HyperLogLog::new(16).unwrap();
    zero.add_bytes(&[0]);
    assert_ne!(empty.to_shadow().registers, zero.to_shadow().registers);
}

#[test]
fn values_go_through_the_default_hasher() {
    let mut by_value = HyperLogLog::new(10).unwrap();
    let mut by_digest = HyperLogLog::new(10).unwrap();
    for i in 0..500_u32 {
        let value = (i, format!("flow {i}"));
        by_value.add(&value);
        let mut h = DefaultHasher::new();
        value.hash(&mut h);
        by_digest.add_hash(h.finish());
    }
    assert_eq!(by_value.to_shadow().registers, by_digest.to_shadow().registers);
    assert_eq!(by_value.total_added(), 500);
    // A slice of bytes is the same value by either way, and unsized types are taken too.
    let mut a = HyperLogLog::new(10).unwrap();
    a.add(&b"key"[..]);
    let mut b = HyperLogLog::new(10).unwrap();
    b.add_bytes(b"key");
    assert_eq!(a.to_shadow().registers, b.to_shadow().registers);
    a.add("text");
    assert_eq!(a.total_added(), 2);
}

#[test]
fn doc_example() {
    let mut hll = HyperLogLog::with_default_precision();
    for ip in 0..10_000_u32 {
        hll.add(&ip.to_le_bytes());
    }
    let est = hll.estimate();
    let err = (est as i64 - 10_000).unsigned_abs() as f64 / 10_000.0;
    assert!(err < 0.05);
}

#[test]
fn clone_is_independent() {
    let mut hll = HyperLogLog::new(5).unwrap();
    hll.add_hash(42);
    let copy = hll.clone();
    assert_eq!(copy.to_shadow().registers, hll.to_shadow().registers);
    assert_eq!(copy.total_added(), 1);
    hll.reset();
    assert_eq!(copy.estimate(), 1);
    assert_eq!(hll.estimate(), 0);
}
