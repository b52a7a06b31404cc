//! Estimates of given register banks.

use anomstream_core::{HyperLogLog, HyperLogLogShadow, MAX_PRECISION, MIN_PRECISION};

/// The estimate of a bank.
fn estimate(precision: u8, registers: Vec<u8>) -> u64 {
    let shadow = HyperLogLogShadow { precision, registers, total_added: 0 };
    HyperLogLog::try_from(shadow).unwrap().estimate()
}

/// The same in floating point.
fn float_estimate(registers: &[u8]) -> u64 {
    let m = registers.len() as f64;
    let mut sum = 0.0_f64;
    let mut zeros = 0_u32;
    for &r in registers {
        if r == 0 {
            zeros += 1;
        }
        sum += 2.0_f64.powi(-i32::from(r));
    }
    let alpha = match registers.len() {
        16 => 0.673,
        32 => 0.697,
        64 => 0.709,
        _ => 0.7213 / (1.0 + 1.079 / m),
    };
    let raw = alpha * m * m / sum;
    if raw <= 2.5 * m && zeros > 0 {
        return (m * (m / f64::from(zeros)).ln()).round() as u64;
    }
    raw.round() as u64
}

/// A stream of well spread 64-bit words.
fn next_word(state: &mut u64) -> u64 {
    *state = state.wrapping_add(0x9e37_79b9_7f4a_7c15);
    let mut z = *state;
    z = (z ^ (z >> 30)).wrapping_mul(0xbf58_476d_1ce4_e5b9);
    z = (z ^ (z >> 27)).wrapping_mul(0x94d0_49bb_1331_11eb);
    z ^ (z >> 31)
}

#[test]
fn full_banks() {
    assert_eq!(estimate(4, vec![1; 16]), 22);
    assert_eq!(estimate(5, vec![1; 32]), 45);
    assert_eq!(estimate(6, vec![1; 64]), 91);
    assert_eq!(estimate(7, vec![2; 128]), 366);
    assert_eq!(estimate(12, vec![3; 4096]), 23_629);
    assert_eq!(estimate(16, vec![5; 65_536]), 1_512_651);
    assert_eq!(estimate(4, vec![60; 16]), 12_414_658_761_606_529_024);
}

#[test]
fn largest_counts_saturate() {
    assert_eq!(estimate(4, vec![61; 16]), u64::MAX);
    assert_eq!(estimate(4, vec![255; 16]), u64::MAX);
    assert_eq!(estimate(16, vec![255; 65_536]), u64::MAX);
}

#[test]
fn empty_registers_switch_to_linear_counting() {
    let mut half = vec![0_u8; 8];
    half.extend_from_slice(&[5; 8]);
    assert_eq!(estimate(4, half), 11);
    let mut one_left = vec![0_u8; 1];
    one_left.extend_from_slice(&[1; 15]);
    assert_eq!(estimate(4, one_left), 44);
    // Past two and a half times the register count the raw estimate stands.
    let mut past = vec![0_u8; 1];
    past.extend_from_slice(&[9; 15]);
    assert_eq!(estimate(4, past), 167);
}

#[test]
fn every_empty_sketch_estimates_zero() {
    for p in MIN_PRECISION..=MAX_PRECISION {
        assert_eq!(HyperLogLog::new(p).unwrap().estimate(), 0);
    }
}

#[test]
fn one_reached_register_is_one_value() {
    for p in MIN_PRECISION..=MAX_PRECISION {
        for rank in [1_u8, 2, 49, 255] {
            let mut registers = vec![0_u8; 1 << p];
            registers[3] = rank;
            assert_eq!(estimate(p, registers), 1);
        }
    }
}

#[test]
fn few_reached_registers_are_counted_exactly() {
    for p in MIN_PRECISION..=MAX_PRECISION {
        let m = 1_usize << p;
        let mut k = 0_usize;
        while 2 * k * k <= m {
            let mut registers = vec![0_u8; m];
            for i in 0..k {
                registers[i] = 1 + (i % 40) as u8;
            }
            assert_eq!(estimate(p, registers), k as u64);
            k += 1;
        }
    }
}

#[test]
fn linear_counting_agrees_with_floating_point() {
    for p in MIN_PRECISION..=12 {
        let m = 1_usize << p;
        let step = if p < 10 { 1 } else { 37 };
        let mut reached = 0_usize;
        while reached < m {
            let mut registers = vec![0_u8; m];
            for r in registers.iter_mut().take(reached) {
                *r = 1;
            }
            assert_eq!(estimate(p, registers.clone()), float_estimate(&registers));
            reached += step;
        }
    }
}

/// Linear counting over a large bank, for reached registers in steps and around powers of two.
fn large_bank_agrees(p: u8, step: usize) {
    let m = 1_usize << p;
    let mut counts: Vec<usize> = (0..m).step_by(step).collect();
    for k in 0..p {
        for reached in [(1_usize << k) - 1, 1 << k, (1 << k) + 1] {
            counts.push(reached);
            counts.push(m - 1 - reached);
        }
    }
    for reached in counts {
        let mut registers = vec![0_u8; m];
        for r in registers.iter_mut().take(reached) {
            *r = 1;
        }
        let zeros = (m - reached) as f64;
        let by_float = (m as f64 * (m as f64 / zeros).ln()).round() as u64;
        assert_eq!(float_estimate(&registers), by_float);
        assert_eq!(estimate(p, registers), by_float);
    }
}

#[test]
fn linear_counting_agrees_with_floating_point_p13() {
    large_bank_agrees(13, 61);
}

#[test]
fn linear_counting_agrees_with_floating_point_p14() {
    large_bank_agrees(14, 127);
}

#[test]
fn linear_counting_agrees_with_floating_point_p15() {
    large_bank_agrees(15, 509);
}

#[test]
fn linear_counting_agrees_with_floating_point_p16() {
    large_bank_agrees(16, 1021);
}

#[test]
fn bias_correction_grows_with_the_bank() {
    // A full bank of equal registers: the correction, times a power of two.
    let mut last = 0.0_f64;
    for p in MIN_PRECISION..=MAX_PRECISION {
        let m = 1_usize << p;
        let alpha = estimate(p, vec![44; m]) as f64 / (m as f64 * 2.0_f64.powi(44));
        assert!(alpha > last && alpha >= 0.672_999 && alpha < 0.7213, "p {p}, alpha {alpha}");
        last = alpha;
    }
    assert_eq!(estimate(4, vec![44; 16]), 189_432_659_326_272);
    assert_eq!(estimate(16, vec![44; 65_536]), 831_588_589_804_284_800);
}

#[test]
fn random_banks_agree_with_floating_point() {
    let mut state = 1_u64;
    for round in 0..600_u64 {
        let p = MIN_PRECISION + (round % 10) as u8;
        let spread = 1 + (next_word(&mut state) % 255) as u8;
        let base = (next_word(&mut state) % u64::from(256 - u16::from(spread))) as u8;
        let registers: Vec<u8> = (0..1_usize << p)
            .map(|_| base + (next_word(&mut state) % u64::from(spread)) as u8)
            .collect();
        assert_eq!(estimate(p, registers.clone()), float_estimate(&registers));
    }
}

#[test]
fn growing_streams_agree_with_floating_point() {
    for p in [4_u8, 5, 6, 7, 10, 12] {
        let mut state = u64::from(p);
        let mut hll = HyperLogLog::new(p).unwrap();
        for i in 0..20_000_u32 {
            hll.add_hash(next_word(&mut state));
            if i % 997 == 0 || i < 64 {
                assert_eq!(hll.estimate(), float_estimate(&hll.to_shadow().registers));
            }
        }
    }
}

#[test]
fn any_value_shows_in_the_estimate() {
    let mut state = 5_u64;
    for p in MIN_PRECISION..=MAX_PRECISION {
        for _ in 0..8 {
            let mut hll = HyperLogLog::new(p).unwrap();
            hll.add_hash(next_word(&mut state));
            assert_eq!(hll.estimate(), 1);
        }
    }
}
