//! From registers to a cardinality: a harmonic mean with a bias correction, and linear counting
//! while many registers are empty.
//!
//! On the way to the raw estimate every intermediate result is rounded to 53 significant bits,
//! ties to even, as arithmetic on 64-bit floating-point numbers rounds it. Here each stands as a
//! whole number of units, the unit being a power of two that is small enough. Linear counting
//! rounds nothing on the way: it takes the integer closest to a multiple of a logarithm, which
//! [`crate::logarithm`] computes in fixed point.

use vstd::arithmetic::div_mod::*;
use vstd::arithmetic::mul::*;
use vstd::arithmetic::power2::*;
use vstd::prelude::*;

use crate::bits;
use crate::logarithm;
use crate::rounding;
use crate::rounding::Rounded;
use crate::sketch;

verus! {

/// The bias correction for `2^precision` registers, in units of `2^-53`: 0.673, 0.697 and 0.709
/// for the three smallest banks, and `0.7213 / (1 + 1.079 / m)` for one of `m` registers.
pub open spec fn alpha(precision: nat) -> nat {
    if precision == 4 {
        rounding::nearest_even(673 * pow2(53), 1000)
    } else if precision == 5 {
        rounding::nearest_even(697 * pow2(53), 1000)
    } else if precision == 6 {
        rounding::nearest_even(709 * pow2(53), 1000)
    } else {
        // In units of 2^-53, 2^-52 and 2^-52.
        let numerator = rounding::nearest_even(7213 * pow2(53), 10000);
        let correction = rounding::nearest_even(1079 * pow2(52), 1000);
        let denominator = pow2(52) + rounding::nearest_even(correction, pow2(precision));
        rounding::nearest_even(numerator * pow2(52), denominator)
    }
}

/// The sum of `2^-r` over the registers, first to last, in units of `2^-307`.
pub open spec fn harmonic_sum(registers: Seq<u8>) -> nat
    decreases registers.len(),
{
    if registers.len() == 0 {
        0
    } else {
        rounding::round_ratio(
            harmonic_sum(registers.drop_last()) + pow2((307 - registers.last()) as nat),
            1,
        )
    }
}

/// The sum of `2^-r` over the registers, in units of `2^-307`, with nothing rounded.
pub open spec fn exact_harmonic_sum(registers: Seq<u8>) -> nat
    decreases registers.len(),
{
    if registers.len() == 0 {
        0
    } else {
        exact_harmonic_sum(registers.drop_last()) + pow2((307 - registers.last()) as nat)
    }
}

/// Number of registers that no value has reached.
pub open spec fn empty_registers(registers: Seq<u8>) -> nat
    decreases registers.len(),
{
    if registers.len() == 0 {
        0
    } else {
        empty_registers(registers.drop_last()) + if registers.last() == 0 {
            1nat
        } else {
            0
        }
    }
}

/// The bias correction times the square of the register count, over the harmonic sum, in units
/// of `2^-52`.
pub open spec fn raw_estimate(precision: nat, registers: Seq<u8>) -> nat {
    rounding::round_ratio(
        alpha(precision) * pow2(2 * precision + 306),
        harmonic_sum(registers),
    )
}

/// Whether many registers are still empty: the raw estimate is at most two and a half times
/// their number, and at least one of them holds its initial zero.
pub open spec fn small_range(precision: nat, registers: Seq<u8>) -> bool {
    &&& raw_estimate(precision, registers) <= 5 * pow2(precision) * pow2(51)
    &&& empty_registers(registers) > 0
}

/// The cardinality estimate of a bank of `2^precision` registers: in the small range, the
/// integer closest to `m ln(m / empty)`, by linear counting; elsewhere the raw estimate, rounded
/// to an integer with halves going up, or `u64::MAX` if that is less.
pub open spec fn cardinality(precision: nat, registers: Seq<u8>) -> nat {
    let m = pow2(precision);
    if small_range(precision, registers) {
        logarithm::log_count(m, empty_registers(registers))
    } else {
        sketch::saturated((raw_estimate(precision, registers) + pow2(51)) / pow2(52))
    }
}

/// The decimal constants of the bias correction, as 53 significant bits spell them.
pub proof fn lemma_decimal_constants()
    ensures
        rounding::nearest_even(673 * pow2(53), 1000) == 6061845098440688,
        rounding::nearest_even(697 * pow2(53), 1000) == 6278017880554471,
        rounding::nearest_even(709 * pow2(53), 1000) == 6386104271611363,
        rounding::nearest_even(7213 * pow2(53), 10000) == 6496892822444678,
        rounding::nearest_even(1079 * pow2(52), 1000) == 4859383997932765,
{
    lemma2_to64_rest();
}

/// The divisor of the bias correction lies between one and two.
proof fn lemma_alpha_divisor(precision: nat)
    requires
        7 <= precision,
    ensures
        pow2(precision) >= 128,
        0 <= rounding::nearest_even(4859383997932765, pow2(precision)) <= 40000000000000,
{
    lemma2_to64();
    bits::lemma_pow2_monotonic(7, precision);
    lemma_mul_inequality(128, pow2(precision) as int, 40000000000000);
    rounding::lemma_nearest_even_bounds(
        4859383997932765,
        pow2(precision),
        0,
        40000000000000,
    );
}

/// The bias correction lies between one half and one.
pub proof fn lemma_alpha(precision: nat)
    requires
        4 <= precision,
    ensures
        pow2(52) <= alpha(precision) < pow2(53),
{
    lemma2_to64_rest();
    lemma_decimal_constants();
    if precision >= 7 {
        lemma_alpha_divisor(precision);
        rounding::lemma_nearest_even_bounds(
            6496892822444678 * 0x10_0000_0000_0000,
            0x10_0000_0000_0000 + rounding::nearest_even(4859383997932765, pow2(precision)),
            0x10_0000_0000_0000,
            0x1f_ffff_ffff_ffff,
        );
    }
}

/// What the bias correction of a larger bank comes to, from what the two quotients in it do.
proof fn lemma_alpha_is(precision: nat, offset: nat, result: nat)
    requires
        7 <= precision,
        2 * (offset * pow2(precision)) < 2 * 4859383997932765 + pow2(precision),
        2 * 4859383997932765 < 2 * (offset * pow2(precision)) + pow2(precision),
        2 * (result * (0x10_0000_0000_0000 + offset)) < 2 * (6496892822444678
            * 0x10_0000_0000_0000) + (0x10_0000_0000_0000 + offset),
        2 * (6496892822444678 * 0x10_0000_0000_0000) < 2 * (result * (0x10_0000_0000_0000
            + offset)) + (0x10_0000_0000_0000 + offset),
    ensures
        alpha(precision) == result,
{
    lemma2_to64_rest();
    lemma_decimal_constants();
    rounding::lemma_nearest_even_is(4859383997932765, pow2(precision), offset);
    rounding::lemma_nearest_even_is(
        6496892822444678 * 0x10_0000_0000_0000,
        0x10_0000_0000_0000 + offset,
        result,
    );
}

/// What the bias correction comes to for each allowed precision.
pub proof fn lemma_alpha_values()
    ensures
        alpha(4) == 6061845098440688,
        alpha(5) == 6278017880554471,
        alpha(6) == 6386104271611363,
        alpha(7) == 6442583853864058,
        alpha(8) == 6469624366618189,
        alpha(9) == 6483229921886640,
        alpha(10) == 6490054181368802,
        alpha(11) == 6493471701367639,
        alpha(12) == 6495181811415743,
        alpha(13) == 6496037204263111,
        alpha(14) == 6496464985181554,
        alpha(15) == 6496678896769336,
        alpha(16) == 6496785857845975,
{
    lemma2_to64();
    lemma2_to64_rest();
    lemma_decimal_constants();
    lemma_alpha_is(7, 37963937483850, 6442583853864058);
    lemma_alpha_is(8, 18981968741925, 6469624366618189);
    lemma_alpha_is(9, 9490984370962, 6483229921886640);
    lemma_alpha_is(10, 4745492185481, 6490054181368802);
    lemma_alpha_is(11, 2372746092741, 6493471701367639);
    lemma_alpha_is(12, 1186373046370, 6495181811415743);
    lemma_alpha_is(13, 593186523185, 6496037204263111);
    lemma_alpha_is(14, 296593261593, 6496464985181554);
    lemma_alpha_is(15, 148296630796, 6496678896769336);
    lemma_alpha_is(16, 74148315398, 6496785857845975);
}

/// The bias correction for a bank of `2^precision` registers, in units of `2^-53`.
fn alpha_m(precision: u8) -> (result: u64)
    requires
        sketch::valid_precision(precision as nat),
    ensures
        result == alpha(precision as nat),
{
    proof {
        lemma2_to64_rest();
        lemma_decimal_constants();
        lemma_alpha(precision as nat);
    }
    match precision {
        4 => 6061845098440688,
        5 => 6278017880554471,
        6 => 6386104271611363,
        _ => {
            let numerator: u128 = 6496892822444678;
            let correction: u128 = 4859383997932765;
            proof {
                lemma_alpha_divisor(precision as nat);
            }
            let m: u128 = rounding::power(precision as u32);
            let denominator: u128 = 0x10_0000_0000_0000 + rounding::nearest(correction, m);
            rounding::nearest(numerator * 0x10_0000_0000_0000, denominator) as u64
        },
    }
}

/// Where every register has reached `least`, each term of the harmonic sum is bounded, and
/// rounding keeps the sum so.
pub proof fn lemma_harmonic_sum_at_most(registers: Seq<u8>, least: nat)
    requires
        registers.len() <= 0x1_0000,
        forall|i: int| 0 <= i < registers.len() ==> registers[i] >= least,
        least <= 255,
    ensures
        harmonic_sum(registers) <= registers.len() * pow2((307 - least) as nat),
    decreases registers.len(),
{
    if registers.len() > 0 {
        let front = registers.drop_last();
        let term = pow2((307 - registers.last()) as nat);
        let top = (307 - least) as nat;
        lemma_harmonic_sum_at_most(front, least);
        bits::lemma_pow2_monotonic((307 - registers.last()) as nat, top);
        lemma_mul_is_distributive_add_other_way(pow2(top) as int, front.len() as int, 1);
        lemma2_to64_rest();
        rounding::lemma_round_at_most(harmonic_sum(front) + term, registers.len(), top);
    }
}

/// A bank has a positive harmonic sum.
pub proof fn lemma_harmonic_sum_positive(registers: Seq<u8>)
    requires
        registers.len() > 0,
    ensures
        harmonic_sum(registers) > 0,
{
    let term = pow2((307 - registers.last()) as nat);
    bits::lemma_pow2_monotonic(52, (307 - registers.last()) as nat);
    lemma_pow2_pos(52);
    rounding::lemma_round_at_least(harmonic_sum(registers.drop_last()) + term, 1);
}

/// Each addition rounds off at most one part in `2^52` of the sum so far.
pub proof fn lemma_harmonic_sum_close(registers: Seq<u8>)
    requires
        registers.len() <= 0x1_0000,
    ensures
        pow2(52) * rounding::distance(harmonic_sum(registers), exact_harmonic_sum(registers))
            <= registers.len() * exact_harmonic_sum(registers),
    decreases registers.len(),
{
    lemma2_to64_rest();
    if registers.len() == 0 {
        assert(pow2(52) * 0 == 0);
    } else {
        let front = registers.drop_last();
        let term = pow2((307 - registers.last()) as nat);
        let x = harmonic_sum(front) + term;
        let before = exact_harmonic_sum(front);
        let exact = exact_harmonic_sum(registers);
        let n = front.len();
        let old_gap = rounding::distance(harmonic_sum(front), before);
        let step = rounding::distance(harmonic_sum(registers), x);
        lemma_harmonic_sum_close(front);
        bits::lemma_pow2_monotonic(52, (307 - registers.last()) as nat);
        rounding::lemma_round_close(x, 1);
        lemma_mul_inequality(n as int, 0x1_0000, before as int);
        assert(x <= 2 * exact);
        lemma_mul_inequality(before as int, exact as int, n as int);
        lemma_mul_is_commutative(before as int, n as int);
        lemma_mul_is_commutative(exact as int, n as int);
        lemma_mul_is_distributive_add_other_way(exact as int, n as int, 1);
    }
}

/// The raw estimate is the bias correction times the square of the register count, over the sum
/// that nothing was rounded off, up to one part in `2^34`.
pub proof fn lemma_raw_estimate_close(precision: nat, registers: Seq<u8>)
    requires
        sketch::valid_precision(precision),
        registers.len() == pow2(precision),
    ensures
        pow2(34) * rounding::distance(
            raw_estimate(precision, registers) * exact_harmonic_sum(registers),
            alpha(precision) * pow2(2 * precision + 306),
        ) <= alpha(precision) * pow2(2 * precision + 306),
{
    let n = alpha(precision) * pow2(2 * precision + 306);
    let h = harmonic_sum(registers);
    let x = exact_harmonic_sum(registers);
    let r = raw_estimate(precision, registers);
    let gap = rounding::distance(h, x);
    lemma2_to64();
    lemma2_to64_rest();
    bits::lemma_pow2_monotonic(precision, 16);
    lemma_harmonic_sum_positive(registers);
    lemma_harmonic_sum_at_most(registers, 0);
    lemma_harmonic_sum_close(registers);
    lemma_alpha(precision);
    // The quotient has at least 53 digits.
    lemma_pow2_adds(precision, 307);
    bits::lemma_pow2_monotonic(precision + 307, 2 * precision + 306);
    lemma_mul_upper_bound(
        h as int,
        pow2(2 * precision + 306) as int,
        pow2(52) as int,
        alpha(precision) as int,
    );
    lemma_mul_is_commutative(pow2(2 * precision + 306) as int, alpha(precision) as int);
    rounding::lemma_round_close(n, h);
    // The two sums are one part in `2^35` apart.
    lemma_mul_inequality(registers.len() as int, 0x1_0000, x as int);
    assert(pow2(35) * gap <= h);
    let g = r * gap;
    assert(pow2(35) * g <= r * h) by (nonlinear_arith)
        requires
            g == r * gap,
            pow2(35) * gap <= h,
    ;
    lemma_mul_is_distributive_sub(r as int, h as int, x as int);
    lemma_mul_is_distributive_sub(r as int, x as int, h as int);
}

/// The empty registers are some of the registers: all of them, or none, only where all, or
/// none, hold zero.
pub proof fn lemma_empty_registers(registers: Seq<u8>)
    ensures
        empty_registers(registers) <= registers.len(),
        empty_registers(registers) == registers.len() <==> forall|i: int|
            0 <= i < registers.len() ==> registers[i] == 0,
        empty_registers(registers) == 0 <==> forall|i: int|
            0 <= i < registers.len() ==> registers[i] != 0,
    decreases registers.len(),
{
    if registers.len() > 0 {
        let front = registers.drop_last();
        let last = registers.len() - 1;
        lemma_empty_registers(front);
        assert(registers[last] == registers.last());
        assert(forall|i: int| 0 <= i < last ==> front[i] == registers[i]);
    }
}

/// Every empty register adds one to the harmonic sum, and rounding keeps that.
pub proof fn lemma_harmonic_sum_at_least(registers: Seq<u8>)
    requires
        registers.len() <= 0x1_0000,
    ensures
        empty_registers(registers) * pow2(307) <= harmonic_sum(registers),
    decreases registers.len(),
{
    lemma_mul_basics(pow2(307) as int);
    if registers.len() > 0 {
        let front = registers.drop_last();
        let term = pow2((307 - registers.last()) as nat);
        lemma_harmonic_sum_at_least(front);
        lemma_empty_registers(registers);
        lemma_mul_is_distributive_add_other_way(
            pow2(307) as int,
            empty_registers(front) as int,
            1,
        );
        lemma2_to64_rest();
        rounding::lemma_round_no_less(
            harmonic_sum(front) + term,
            empty_registers(registers),
            307,
        );
    }
}

/// A register that is written for the first time is empty no more; no other write matters.
pub proof fn lemma_empty_registers_update(registers: Seq<u8>, i: int, value: u8)
    requires
        0 <= i < registers.len(),
        value > 0,
    ensures
        empty_registers(registers.update(i, value)) == empty_registers(registers) - if registers[i]
            == 0 {
            1int
        } else {
            0
        },
    decreases registers.len(),
{
    let front = registers.drop_last();
    let after = registers.update(i, value);
    if i == registers.len() - 1 {
        assert(after.drop_last() =~= front);
    } else {
        lemma_empty_registers_update(front, i, value);
        assert(after.drop_last() =~= front.update(i, value));
    }
}

/// While at least three quarters of the registers are empty, the estimate is by linear counting.
pub proof fn lemma_mostly_empty(precision: nat, registers: Seq<u8>)
    requires
        sketch::valid_precision(precision),
        registers.len() == pow2(precision),
        4 * empty_registers(registers) >= 3 * registers.len(),
    ensures
        small_range(precision, registers),
{
    let d = harmonic_sum(registers);
    let n = alpha(precision) * pow2(2 * precision + 306);
    let m = pow2(precision);
    let e = empty_registers(registers);
    let c = pow2(307);
    lemma2_to64();
    lemma2_to64_rest();
    lemma_pow2_pos(precision);
    bits::lemma_pow2_monotonic(precision, 16);
    lemma_harmonic_sum_positive(registers);
    lemma_harmonic_sum_at_least(registers);
    lemma_alpha(precision);
    // Both sides of `n < d * 2^(53 + precision)`, in units of `2^(2 precision + 306)`.
    lemma_pow2_adds(precision, precision);
    lemma_pow2_adds(2 * precision, 306);
    lemma_pow2_unfold(307);
    lemma_pow2_adds(53, precision);
    let u = m * m * pow2(306);
    assert(pow2(2 * precision + 306) == u);
    assert(4 * (e * c * (pow2(53) * m)) >= 3 * (2 * pow2(53) * u)) by (nonlinear_arith)
        requires
            4 * e >= 3 * m,
            c == 2 * pow2(306),
            u == m * m * pow2(306),
    ;
    lemma_mul_inequality((e * c) as int, d as int, (pow2(53) * m) as int);
    lemma_pow2_pos(2 * precision + 306);
    lemma_mul_strict_inequality(alpha(precision) as int, pow2(53) as int, u as int);
    assert(2 * pow2(53) * u == 2 * (pow2(53) * u)) by (nonlinear_arith);
    rounding::lemma_round_below(n, d, precision);
    assert(pow2(53) * m == 4 * m * pow2(51)) by (nonlinear_arith)
        requires
            pow2(53) == 4 * pow2(51),
    ;
    assert(4 * m * pow2(51) <= 5 * m * pow2(51)) by (nonlinear_arith);
}

/// Once a register has been reached the estimate is positive.
pub proof fn lemma_positive_estimate(precision: nat, registers: Seq<u8>)
    requires
        sketch::valid_precision(precision),
        registers.len() == pow2(precision),
        empty_registers(registers) < registers.len(),
    ensures
        cardinality(precision, registers) > 0,
{
    let d = harmonic_sum(registers);
    let n = alpha(precision) * pow2(2 * precision + 306);
    let m = pow2(precision);
    lemma2_to64();
    lemma2_to64_rest();
    bits::lemma_pow2_monotonic(4, precision);
    bits::lemma_pow2_monotonic(precision, 16);
    if small_range(precision, registers) {
        logarithm::lemma_log_count_positive(m, empty_registers(registers));
    } else {
        let raw = raw_estimate(precision, registers);
        if empty_registers(registers) > 0 {
            assert(5 * m * pow2(51) >= pow2(52)) by (nonlinear_arith)
                requires
                    m >= 16,
                    pow2(52) == 2 * pow2(51),
            ;
        } else {
            lemma_empty_registers(registers);
            lemma_harmonic_sum_at_most(registers, 1);
            lemma_harmonic_sum_positive(registers);
            lemma_alpha(precision);
            lemma_pow2_adds(precision, 306);
            bits::lemma_pow2_monotonic(precision + 306, 2 * precision + 306);
            lemma_mul_upper_bound(
                d as int,
                pow2(2 * precision + 306) as int,
                pow2(52) as int,
                alpha(precision) as int,
            );
            lemma_mul_is_commutative(
                pow2(2 * precision + 306) as int,
                alpha(precision) as int,
            );
            rounding::lemma_round_at_least(n, d);
        }
        assert(raw >= pow2(52));
        lemma_div_is_ordered(
            pow2(52) as int,
            raw + pow2(51) as int,
            pow2(52) as int,
        );
    }
}

/// A rounded number under a power of two has an exponent under that power's.
proof fn lemma_exponent_at_most(x: Rounded, bound: nat)
    requires
        x.wf(),
        x.value() <= pow2(bound),
    ensures
        x.exponent + 52 <= bound,
{
    let e = x.exponent as nat;
    lemma_pow2_pos(e);
    lemma_mul_inequality(pow2(52) as int, x.digits as int, pow2(e) as int);
    lemma_pow2_adds(52, e);
    if 52 + e > bound {
        lemma_pow2_strictly_increases(bound, 52 + e);
    }
}

/// One register's term of the harmonic sum.
fn harmonic_term(register: u8) -> (term: Rounded)
    ensures
        term.wf(),
        term.exponent <= 255,
        term.value() == pow2((307 - register) as nat),
{
    proof {
        lemma2_to64_rest();
        lemma_pow2_adds(52, (255 - register) as nat);
    }
    Rounded { digits: 0x10_0000_0000_0000, exponent: 255 - register as u32 }
}

/// Adds up the harmonic sum of a bank and counts its empty registers.
fn scan(registers: &Vec<u8>) -> (result: (Rounded, usize))
    requires
        0 < registers.len() <= 0x1_0000,
    ensures
        result.0.wf(),
        result.0.value() == harmonic_sum(registers@),
        result.1 == empty_registers(registers@),
        result.1 <= registers.len(),
{
    let first: u8 = registers[0];
    let mut sum: Rounded = harmonic_term(first);
    let mut zeros: usize = if first == 0 {
        1
    } else {
        0
    };
    let mut i: usize = 1;
    proof {
        let one = registers@.take(1);
        assert(one.drop_last() =~= Seq::<u8>::empty());
        assert(one.last() == first);
        assert(harmonic_sum(one.drop_last()) == 0);
        assert(empty_registers(one.drop_last()) == 0);
        rounding::lemma_rounded_stays(sum);
    }
    while i < registers.len()
        invariant
            1 <= i <= registers.len() <= 0x1_0000,
            sum.wf(),
            sum.value() == harmonic_sum(registers@.take(i as int)),
            zeros == empty_registers(registers@.take(i as int)),
            zeros <= i,
        decreases registers.len() - i,
    {
        let register: u8 = registers[i];
        proof {
            let front = registers@.take(i as int);
            lemma_harmonic_sum_at_most(front, 0);
            lemma2_to64();
            lemma_pow2_adds(16, 307);
            lemma_mul_inequality(front.len() as int, 0x1_0000, pow2(307) as int);
            lemma_exponent_at_most(sum, 323);
            let next = registers@.take(i + 1);
            assert(next.drop_last() =~= front);
            assert(next.last() == register);
        }
        sum = sum.plus(harmonic_term(register));
        if register == 0 {
            zeros = zeros + 1;
        }
        i += 1;
    }
    assert(registers@.take(i as int) =~= registers@);
    (sum, zeros)
}

/// The cardinality estimate of a bank of `2^precision` registers.
pub(crate) fn estimate(precision: u8, registers: &Vec<u8>) -> (count: u64)
    requires
        sketch::valid_precision(precision as nat),
        registers.len() == pow2(precision as nat),
    ensures
        count == cardinality(precision as nat, registers@),
        small_range(precision as nat, registers@) ==> logarithm::rounds_log(
            count as nat,
            registers@.len(),
            registers@.len(),
            empty_registers(registers@),
        ),
{
    proof {
        lemma2_to64();
        lemma2_to64_rest();
        lemma_pow2_pos(precision as nat);
        bits::lemma_pow2_monotonic(precision as nat, 16);
    }
    let scanned: (Rounded, usize) = scan(registers);
    let sum: Rounded = scanned.0;
    let zeros: usize = scanned.1;
    let alpha: u64 = alpha_m(precision);
    proof {
        lemma_alpha(precision as nat);
    }
    let dividend: Rounded = Rounded { digits: alpha, exponent: 2 * precision as u32 + 306 };
    proof {
        lemma_harmonic_sum_at_most(registers@, 0);
        lemma_pow2_adds(precision as nat, 307);
        lemma_exponent_at_most(sum, precision as nat + 307);
    }
    let raw: Rounded = dividend.over(sum);
    let m: u128 = rounding::power(precision as u32);
    let ghost e = raw.exponent as nat;
    if raw.exponent >= 64 {
        proof {
            // The raw estimate is past both the small range and the largest count.
            bits::lemma_pow2_monotonic(64, e);
            lemma_mul_upper_bound(
                pow2(52) as int,
                raw.digits as int,
                pow2(64) as int,
                pow2(e) as int,
            );
            lemma_div_is_ordered(
                0x10_0000_0000_0000 * 0x1_0000_0000_0000_0000int,
                raw.value() + pow2(51) as int,
                pow2(52) as int,
            );
        }
        return u64::MAX;
    }
    proof {
        bits::lemma_pow2_monotonic(e, 64);
        lemma_mul_upper_bound(
            raw.digits as int,
            0x20_0000_0000_0000,
            pow2(e) as int,
            0x1_0000_0000_0000_0000,
        );
    }
    let value: u128 = raw.digits as u128 * rounding::power(raw.exponent);
    if value <= 5 * m * 0x8_0000_0000_0000 && zeros > 0 {
        return logarithm::scaled_log(m as u64, zeros as u64);
    }
    let rounded: u128 = (value + 0x8_0000_0000_0000) / 0x10_0000_0000_0000;
    if rounded > u64::MAX as u128 {
        u64::MAX
    } else {
        rounded as u64
    }
}

} // verus!
