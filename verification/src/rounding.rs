//! Numbers of 53 significant bits, and the rounding of sums and quotients to them.

use vstd::arithmetic::div_mod::*;
use vstd::arithmetic::mul::*;
use vstd::arithmetic::power2::*;
use vstd::prelude::*;

use crate::bits;

verus! {

/// Number of significant bits that a rounded value keeps.
pub const SIGNIFICANT_BITS: u32 = 53;

/// The integer closest to `n / d`; of two that are equally close, the even one.
pub open spec fn nearest_even(n: nat, d: nat) -> nat {
    let floor = n / d;
    let rest = n % d;
    if 2 * rest < d || (2 * rest == d && floor % 2 == 0) {
        floor
    } else {
        floor + 1
    }
}

/// Number of digits of `n` beyond those that a rounded value keeps.
pub open spec fn excess_bits(n: nat) -> nat {
    if bits::bit_length(n) > SIGNIFICANT_BITS {
        (bits::bit_length(n) - SIGNIFICANT_BITS) as nat
    } else {
        0
    }
}

/// `n / d` rounded to an integer of 53 significant bits, ties to even.
pub open spec fn round_ratio(n: nat, d: nat) -> nat {
    let excess = excess_bits(n / d);
    nearest_even(n, d * pow2(excess)) * pow2(excess)
}

/// A common factor cancels.
pub proof fn lemma_nearest_even_scale(n: nat, d: nat, c: nat)
    requires
        d > 0,
        c > 0,
    ensures
        nearest_even(n * c, d * c) == nearest_even(n, d),
{
    let floor = n / d;
    let rest = n % d;
    lemma_fundamental_div_mod(n as int, d as int);
    lemma_mod_bound(n as int, d as int);
    assert(n * c == floor * (d * c) + rest * c) by (nonlinear_arith)
        requires
            n == d * floor + rest,
    ;
    assert(0 <= rest * c < d * c) by (nonlinear_arith)
        requires
            0 <= rest < d,
            c > 0,
    ;
    lemma_fundamental_div_mod_converse(
        (n * c) as int,
        (d * c) as int,
        floor as int,
        (rest * c) as int,
    );
    assert((2 * (rest * c) < d * c) == (2 * rest < d)) by (nonlinear_arith)
        requires
            c > 0,
    ;
    assert((2 * (rest * c) == d * c) == (2 * rest == d)) by (nonlinear_arith)
        requires
            c > 0,
    ;
}

/// A quotient between two bounds is rounded to between those bounds.
pub proof fn lemma_nearest_even_bounds(n: nat, d: nat, low: nat, high: nat)
    requires
        d > 0,
        low * d <= n <= high * d,
    ensures
        low <= nearest_even(n, d) <= high,
{
    let floor = n / d;
    let rest = n % d;
    lemma_fundamental_div_mod(n as int, d as int);
    lemma_mod_bound(n as int, d as int);
    assert(low <= floor <= high && (floor == high ==> rest == 0)) by (nonlinear_arith)
        requires
            d > 0,
            n == d * floor + rest,
            0 <= rest < d,
            low * d <= n <= high * d,
    ;
}

/// An integer that is off a quotient by less than one half is the closest.
pub proof fn lemma_nearest_even_is(n: nat, d: nat, q: nat)
    requires
        2 * (q * d) < 2 * n + d,
        2 * n < 2 * (q * d) + d,
    ensures
        nearest_even(n, d) == q,
{
    let floor = n / d;
    let rest = n % d;
    lemma_fundamental_div_mod(n as int, d as int);
    lemma_mod_bound(n as int, d as int);
    if q * d <= n {
        lemma_fundamental_div_mod_converse(n as int, d as int, q as int, n - q * d);
    } else {
        lemma_mul_is_distributive_sub_other_way(d as int, q as int, 1);
        lemma_fundamental_div_mod_converse(n as int, d as int, q - 1, n - (q - 1) * d);
    }
}

/// How a quotient with 53 digits and `excess` more is rounded.
pub proof fn lemma_round_ratio(n: nat, d: nat, excess: nat)
    requires
        d > 0,
        d * pow2(52 + excess) <= n < d * pow2(53 + excess),
    ensures
        round_ratio(n, d) == nearest_even(n, d * pow2(excess)) * pow2(excess),
        pow2(52) <= nearest_even(n, d * pow2(excess)) <= pow2(53),
{
    let q = n / d;
    lemma_fundamental_div_mod(n as int, d as int);
    lemma_mod_bound(n as int, d as int);
    let low = pow2(52 + excess);
    let high = pow2(53 + excess);
    assert(low <= q < high) by (nonlinear_arith)
        requires
            d > 0,
            n == d * q + n % d,
            0 <= n % d < d,
            d * low <= n < d * high,
    ;
    bits::lemma_bit_length_is(q, 53 + excess);
    lemma_pow2_adds(52, excess);
    lemma_pow2_adds(53, excess);
    lemma_pow2_pos(excess);
    let c = pow2(excess);
    lemma_mul_strictly_positive(d as int, c as int);
    assert(pow2(52) * (d * c) == d * low && pow2(53) * (d * c) == d * high) by (nonlinear_arith)
        requires
            low == pow2(52) * c,
            high == pow2(53) * c,
    ;
    lemma_nearest_even_bounds(n, d * c, pow2(52), pow2(53));
}

/// A number bounded by one of few significant bits has no more excess digits than that one has
/// trailing zeros.
proof fn lemma_excess_at_most(n: nat, digits: nat, exponent: nat)
    requires
        n <= digits * pow2(exponent),
        digits <= pow2(52),
    ensures
        excess_bits(n) <= exponent,
{
    let excess = excess_bits(n);
    if excess > exponent {
        bits::lemma_bit_length_bounds(n);
        lemma_pow2_adds(52, excess);
        lemma_pow2_strictly_increases(exponent, excess);
        lemma_mul_inequality(digits as int, pow2(52) as int, pow2(exponent) as int);
        lemma_pow2_pos(52);
        lemma_mul_strict_inequality(
            pow2(exponent) as int,
            pow2(excess) as int,
            pow2(52) as int,
        );
        lemma_mul_is_commutative(pow2(exponent) as int, pow2(52) as int);
        lemma_mul_is_commutative(pow2(excess) as int, pow2(52) as int);
    }
}

/// What has few significant bits stays a bound under rounding.
pub proof fn lemma_round_at_most(n: nat, digits: nat, exponent: nat)
    requires
        n <= digits * pow2(exponent),
        digits <= pow2(52),
    ensures
        round_ratio(n, 1) <= digits * pow2(exponent),
{
    let excess = excess_bits(n);
    let high = digits * pow2((exponent - excess) as nat);
    lemma_div_basics(n as int);
    lemma_pow2_pos(excess);
    lemma_excess_at_most(n, digits, exponent);
    lemma_pow2_adds((exponent - excess) as nat, excess);
    lemma_mul_is_associative(
        digits as int,
        pow2((exponent - excess) as nat) as int,
        pow2(excess) as int,
    );
    lemma_nearest_even_bounds(n, pow2(excess), 0, high);
    lemma_mul_inequality(
        nearest_even(n, pow2(excess)) as int,
        high as int,
        pow2(excess) as int,
    );
}

/// What has few significant bits stays a lower bound too.
pub proof fn lemma_round_no_less(n: nat, digits: nat, exponent: nat)
    requires
        digits * pow2(exponent) <= n,
        digits <= pow2(52),
    ensures
        digits * pow2(exponent) <= round_ratio(n, 1),
{
    let excess = excess_bits(n);
    lemma_div_basics(n as int);
    lemma_pow2_pos(excess);
    if excess <= exponent {
        let low = digits * pow2((exponent - excess) as nat);
        lemma_pow2_adds((exponent - excess) as nat, excess);
        lemma_mul_is_associative(
            digits as int,
            pow2((exponent - excess) as nat) as int,
            pow2(excess) as int,
        );
        let floor = n / pow2(excess);
        lemma_fundamental_div_mod(n as int, pow2(excess) as int);
        lemma_mod_bound(n as int, pow2(excess) as int);
        lemma_div_is_ordered((low * pow2(excess)) as int, n as int, pow2(excess) as int);
        lemma_div_by_multiple(low as int, pow2(excess) as int);
        lemma_mul_inequality(
            low as int,
            nearest_even(n, pow2(excess)) as int,
            pow2(excess) as int,
        );
    } else {
        // The digits that the rounded number keeps weigh more than the bound.
        bits::lemma_bit_length_bounds(n);
        lemma_round_ratio(n, 1, excess);
        lemma_mul_inequality(
            pow2(52) as int,
            nearest_even(n, pow2(excess)) as int,
            pow2(excess) as int,
        );
        bits::lemma_pow2_monotonic(exponent, excess);
        lemma_mul_upper_bound(
            digits as int,
            pow2(52) as int,
            pow2(exponent) as int,
            pow2(excess) as int,
        );
    }
}

/// A quotient under a power of two of at least 53 zeros is rounded to no more than that.
pub proof fn lemma_round_below(n: nat, d: nat, more: nat)
    requires
        d > 0,
        n < d * pow2(53 + more),
    ensures
        round_ratio(n, d) <= pow2(53 + more),
{
    let q = n / d;
    let excess = excess_bits(q);
    lemma_fundamental_div_mod(n as int, d as int);
    lemma_mod_bound(n as int, d as int);
    lemma_multiply_divide_lt(n as int, d as int, pow2(53 + more) as int);
    bits::lemma_bit_length_at_most(q, 53 + more);
    assert(excess <= more);
    lemma_pow2_pos(excess);
    lemma_pow2_adds(53, excess);
    bits::lemma_pow2_monotonic(53 + excess, 53 + more);
    if q > 0 {
        bits::lemma_bit_length_bounds(q);
    }
    bits::lemma_pow2_monotonic(bits::bit_length(q), 53 + excess);
    lemma_pow2_pos(53 + excess);
    // Fewer digits than 53 and the excess.
    lemma_mul_inequality(q + 1 as int, pow2(53 + excess) as int, d as int);
    lemma_mul_is_distributive_add_other_way(d as int, q as int, 1);
    lemma_mul_is_commutative(d as int, q as int);
    let unit = d * pow2(excess);
    lemma_mul_strictly_positive(d as int, pow2(excess) as int);
    assert(pow2(53) * unit == pow2(53 + excess) * d) by (nonlinear_arith)
        requires
            unit == d * pow2(excess),
            pow2(53 + excess) == pow2(53) * pow2(excess),
    ;
    lemma_nearest_even_bounds(n, unit, 0, pow2(53));
    lemma_mul_inequality(
        nearest_even(n, unit) as int,
        pow2(53) as int,
        pow2(excess) as int,
    );
}

/// A quotient of at least 53 digits has some number of digits in excess of them.
proof fn lemma_round_excess(n: nat, d: nat) -> (excess: nat)
    requires
        d > 0,
        n >= d * pow2(52),
    ensures
        d * pow2(52 + excess) <= n < d * pow2(53 + excess),
        round_ratio(n, d) == nearest_even(n, d * pow2(excess)) * pow2(excess),
        pow2(52) <= nearest_even(n, d * pow2(excess)),
{
    let q = n / d;
    lemma_pow2_pos(52);
    lemma_mul_is_commutative(d as int, pow2(52) as int);
    lemma_div_is_ordered((pow2(52) * d) as int, n as int, d as int);
    lemma_div_by_multiple(pow2(52) as int, d as int);
    bits::lemma_bit_length_bounds(q);
    if bits::bit_length(q) < 53 {
        bits::lemma_pow2_monotonic(bits::bit_length(q), 52);
    }
    let excess = (bits::bit_length(q) - 53) as nat;
    lemma_fundamental_div_mod(n as int, d as int);
    lemma_mod_bound(n as int, d as int);
    lemma_mul_inequality(pow2(52 + excess) as int, q as int, d as int);
    lemma_mul_inequality(q + 1 as int, pow2(53 + excess) as int, d as int);
    lemma_mul_is_distributive_add_other_way(d as int, q as int, 1);
    lemma_mul_is_commutative(d as int, q as int);
    lemma_mul_is_commutative(d as int, pow2(52 + excess) as int);
    lemma_mul_is_commutative(d as int, pow2(53 + excess) as int);
    lemma_round_ratio(n, d, excess);
    excess
}

/// A quotient of at least 53 digits has as many after rounding.
pub proof fn lemma_round_at_least(n: nat, d: nat)
    requires
        d > 0,
        n >= d * pow2(52),
    ensures
        round_ratio(n, d) >= pow2(52),
{
    let excess = lemma_round_excess(n, d);
    let digits = nearest_even(n, d * pow2(excess));
    lemma_pow2_pos(excess);
    lemma_mul_inequality(1, pow2(excess) as int, digits as int);
    lemma_mul_is_commutative(digits as int, pow2(excess) as int);
}

/// How far two numbers are apart.
pub open spec fn distance(a: nat, b: nat) -> nat {
    if a < b {
        (b - a) as nat
    } else {
        (a - b) as nat
    }
}

/// The closest integer to a quotient is off by at most one half.
proof fn lemma_nearest_even_close(n: nat, d: nat)
    requires
        d > 0,
    ensures
        2 * distance(nearest_even(n, d) * d, n) <= d,
{
    let floor = n / d;
    let rest = n % d;
    lemma_fundamental_div_mod(n as int, d as int);
    lemma_mod_bound(n as int, d as int);
    lemma_mul_is_commutative(floor as int, d as int);
    lemma_mul_is_distributive_add_other_way(d as int, floor as int, 1);
}

/// A quotient of at least 53 digits is off by at most one part in `2^53` after rounding.
pub proof fn lemma_round_close(n: nat, d: nat)
    requires
        d > 0,
        n >= d * pow2(52),
    ensures
        pow2(53) * distance(round_ratio(n, d) * d, n) <= n,
{
    let excess = lemma_round_excess(n, d);
    let c = pow2(excess);
    let q = nearest_even(n, d * c);
    let unit = d * c;
    lemma_pow2_pos(excess);
    lemma_mul_strictly_positive(d as int, c as int);
    lemma_nearest_even_close(n, unit);
    assert((q * c) * d == q * unit) by (nonlinear_arith)
        requires
            unit == d * c,
    ;
    lemma_pow2_adds(52, excess);
    lemma_pow2_unfold(53);
    let gap = distance(q * unit, n);
    assert(pow2(52) * unit == d * pow2(52 + excess)) by (nonlinear_arith)
        requires
            unit == d * c,
            pow2(52 + excess) == pow2(52) * c,
    ;
    assert(pow2(53) * gap <= pow2(52) * unit) by (nonlinear_arith)
        requires
            pow2(53) == 2 * pow2(52),
            2 * gap <= unit,
    ;
}

/// `2^exponent`, exactly.
pub(crate) fn power(exponent: u32) -> (result: u128)
    requires
        exponent < 127,
    ensures
        result == pow2(exponent as nat),
        0 < result <= 0x8000_0000_0000_0000_0000_0000_0000_0000,
{
    let mut result: u128 = 1;
    let mut i: u32 = 0;
    proof {
        lemma2_to64_rest();
        lemma_pow2_adds(63, 64);
        lemma2_to64();
    }
    while i < exponent
        invariant
            i <= exponent < 127,
            result == pow2(i as nat),
            pow2(127) == 0x8000_0000_0000_0000_0000_0000_0000_0000,
        decreases exponent - i,
    {
        proof {
            bits::lemma_pow2_monotonic(i as nat + 1, 127);
            lemma_pow2_unfold(i as nat + 1);
        }
        result = result * 2;
        i += 1;
    }
    proof {
        bits::lemma_pow2_monotonic(exponent as nat, 127);
        lemma_pow2_pos(exponent as nat);
    }
    result
}

/// The integer closest to `n / d`, ties to even.
pub(crate) fn nearest(n: u128, d: u128) -> (result: u128)
    requires
        d > 0,
        n < u128::MAX,
        d <= 0x8000_0000_0000_0000_0000_0000_0000_0000,
    ensures
        result == nearest_even(n as nat, d as nat),
{
    let floor: u128 = n / d;
    let rest: u128 = n % d;
    proof {
        lemma_div_is_ordered_by_denominator(n as int, 1, d as int);
    }
    if rest < d - rest || (rest == d - rest && floor % 2 == 0) {
        floor
    } else {
        floor + 1
    }
}

/// A number of exactly 53 significant bits.
#[derive(Clone, Copy)]
pub struct Rounded {
    /// The significant bits.
    pub digits: u64,
    /// The power of two that they count.
    pub exponent: u32,
}

impl Rounded {
    /// The leading digit is a one, and the exponent is nowhere near its machine limit.
    pub open spec fn wf(self) -> bool {
        &&& pow2(52) <= self.digits < pow2(53)
        &&& self.exponent <= 0x1000_0000
    }

    /// The number itself.
    pub open spec fn value(self) -> nat {
        self.digits as nat * pow2(self.exponent as nat)
    }

    /// The number with these digits; a carry out of them moves into the exponent.
    fn carried(digits: u128, exponent: u32) -> (result: Rounded)
        requires
            pow2(52) <= digits <= pow2(53),
            exponent < 0x1000_0000,
        ensures
            result.wf(),
            result.value() == digits as nat * pow2(exponent as nat),
            exponent <= result.exponent <= exponent + 1,
    {
        proof {
            lemma2_to64_rest();
            lemma_pow2_unfold(53);
        }
        if digits == 0x20_0000_0000_0000 {
            proof {
                lemma_pow2_unfold(exponent as nat + 1);
                let c = pow2(exponent as nat);
                assert(0x20_0000_0000_0000 * c == 0x10_0000_0000_0000 * (2 * c))
                    by (nonlinear_arith);
            }
            Rounded { digits: 0x10_0000_0000_0000, exponent: exponent + 1 }
        } else {
            Rounded { digits: digits as u64, exponent }
        }
    }

    /// The sum of two rounded numbers, rounded.
    pub(crate) fn plus(self, other: Rounded) -> (result: Rounded)
        requires
            self.wf(),
            other.wf(),
            self.exponent < 0x0800_0000,
            other.exponent < 0x0800_0000,
        ensures
            result.wf(),
            result.value() == round_ratio(self.value() + other.value(), 1),
    {
        let high: Rounded = if self.exponent >= other.exponent {
            self
        } else {
            other
        };
        let low: Rounded = if self.exponent >= other.exponent {
            other
        } else {
            self
        };
        let gap: u32 = high.exponent - low.exponent;
        if gap >= 55 {
            proof {
                lemma_plus_absorbs(high, low);
            }
            return high;
        }
        proof {
            lemma2_to64_rest();
            lemma_pow2_adds(gap as nat, 53);
            bits::lemma_pow2_monotonic(gap as nat, 54);
            lemma_pow2_unfold(gap as nat + 53 + 1);
        }
        let scale: u128 = power(gap);
        proof {
            lemma_mul_upper_bound(
                high.digits as int,
                0x20_0000_0000_0000,
                scale as int,
                0x40_0000_0000_0000,
            );
        }
        let x: u128 = high.digits as u128 * scale + low.digits as u128;
        let limit: u128 = power(gap + 53);
        let excess: u32 = if x < limit {
            gap
        } else {
            gap + 1
        };
        let unit: u128 = power(excess);
        proof {
            lemma_plus_aligned(high, low, x as nat, excess as nat);
        }
        let digits: u128 = nearest(x, unit);
        Rounded::carried(digits, low.exponent + excess)
    }

    /// The quotient of two rounded numbers, rounded, where it has at least 53 digits.
    pub(crate) fn over(self, divisor: Rounded) -> (result: Rounded)
        requires
            self.wf(),
            divisor.wf(),
            self.exponent >= divisor.exponent + 53,
        ensures
            result.wf(),
            result.value() == round_ratio(self.value(), divisor.value()),
            result.exponent <= self.exponent - divisor.exponent,
    {
        let gap: u32 = self.exponent - divisor.exponent;
        let spare: u32 = if self.digits >= divisor.digits {
            52
        } else {
            53
        };
        proof {
            lemma2_to64_rest();
            lemma_over(self, divisor, spare as nat);
        }
        let scale: u128 = power(spare);
        proof {
            lemma_mul_upper_bound(
                self.digits as int,
                0x20_0000_0000_0000,
                scale as int,
                0x20_0000_0000_0000,
            );
        }
        let digits: u128 = nearest(self.digits as u128 * scale, divisor.digits as u128);
        Rounded::carried(digits, gap - spare)
    }
}

/// Dividing the digits, with enough zeros appended for a quotient of 53, divides the numbers.
proof fn lemma_over(dividend: Rounded, divisor: Rounded, spare: nat)
    requires
        dividend.wf(),
        divisor.wf(),
        dividend.exponent >= divisor.exponent + 53,
        spare == if dividend.digits >= divisor.digits {
            52nat
        } else {
            53nat
        },
    ensures
        round_ratio(dividend.value(), divisor.value()) == nearest_even(
            dividend.digits as nat * pow2(spare),
            divisor.digits as nat,
        ) * pow2((dividend.exponent - divisor.exponent - spare) as nat),
        pow2(52) <= nearest_even(dividend.digits as nat * pow2(spare), divisor.digits as nat)
            <= pow2(53),
{
    let a = dividend.digits as nat;
    let b = divisor.digits as nat;
    let x = dividend.exponent as nat;
    let y = divisor.exponent as nat;
    let excess = (x - y - spare) as nat;
    let c = pow2((x - spare) as nat);
    lemma_pow2_pos((x - spare) as nat);
    lemma_pow2_pos(y);
    lemma_mul_strictly_positive(b as int, pow2(y) as int);
    lemma_pow2_unfold(53);
    lemma_pow2_adds(spare, (x - spare) as nat);
    lemma_pow2_adds(y, excess);
    lemma_pow2_adds(52, excess);
    lemma_pow2_adds(53, excess);
    // Both numbers, over the unit of the quotient's last digit.
    assert(dividend.value() == (a * pow2(spare)) * c) by (nonlinear_arith)
        requires
            dividend.value() == a * pow2(x),
            pow2(x) == pow2(spare) * c,
    ;
    assert(divisor.value() * pow2(excess) == b * c) by (nonlinear_arith)
        requires
            divisor.value() == b * pow2(y),
            c == pow2(y) * pow2(excess),
    ;
    assert(divisor.value() * pow2(52 + excess) == (b * pow2(52)) * c) by (nonlinear_arith)
        requires
            divisor.value() * pow2(excess) == b * c,
            pow2(52 + excess) == pow2(52) * pow2(excess),
    ;
    assert(divisor.value() * pow2(53 + excess) == (b * pow2(53)) * c) by (nonlinear_arith)
        requires
            divisor.value() * pow2(excess) == b * c,
            pow2(53 + excess) == pow2(53) * pow2(excess),
    ;
    assert(b * pow2(52) <= a * pow2(spare) < b * pow2(53)) by (nonlinear_arith)
        requires
            pow2(52) <= a < pow2(53),
            pow2(52) <= b < pow2(53),
            pow2(53) == 2 * pow2(52),
            a >= b ==> spare == 52,
            a < b ==> spare == 53,
    ;
    lemma_mul_inequality((b * pow2(52)) as int, (a * pow2(spare)) as int, c as int);
    lemma_mul_strict_inequality((a * pow2(spare)) as int, (b * pow2(53)) as int, c as int);
    lemma_round_ratio(dividend.value(), divisor.value(), excess);
    lemma_nearest_even_scale(a * pow2(spare), b, c);
}

/// A rounded number is not rounded any further.
pub proof fn lemma_rounded_stays(x: Rounded)
    requires
        x.wf(),
    ensures
        round_ratio(x.value(), 1) == x.value(),
{
    let e = x.exponent as nat;
    let c = pow2(e);
    lemma_pow2_pos(e);
    lemma_pow2_adds(52, e);
    lemma_pow2_adds(53, e);
    lemma_mul_inequality(pow2(52) as int, x.digits as int, c as int);
    lemma_mul_strict_inequality(x.digits as int, pow2(53) as int, c as int);
    lemma_round_ratio(x.value(), 1, e);
    lemma_fundamental_div_mod_converse(x.value() as int, c as int, x.digits as int, 0);
}

/// An addend far below the last digit of a sum leaves no trace.
proof fn lemma_plus_absorbs(high: Rounded, low: Rounded)
    requires
        high.wf(),
        low.wf(),
        high.exponent >= low.exponent + 55,
    ensures
        round_ratio(high.value() + low.value(), 1) == high.value(),
{
    let e = high.exponent as nat;
    let f = low.exponent as nat;
    let c = pow2(e);
    let n = high.value() + low.value();
    lemma_pow2_pos(f);
    lemma_pow2_pos(e);
    // The lower addend is less than half a unit of the higher one's last digit.
    lemma_mul_strict_inequality(low.digits as int, pow2(53) as int, pow2(f) as int);
    lemma_pow2_adds(53, f);
    bits::lemma_pow2_monotonic(53 + f, (e - 2) as nat);
    lemma_pow2_unfold(e);
    lemma_pow2_unfold((e - 1) as nat);
    assert(2 * low.value() < c);
    lemma_pow2_adds(52, e);
    lemma_pow2_adds(53, e);
    lemma_mul_inequality(pow2(52) as int, high.digits as int, c as int);
    lemma_mul_inequality(high.digits + 1, pow2(53) as int, c as int);
    lemma_mul_is_distributive_add_other_way(c as int, high.digits as int, 1);
    lemma_round_ratio(n, 1, e);
    lemma_fundamental_div_mod_converse(
        n as int,
        c as int,
        high.digits as int,
        low.value() as int,
    );
}

/// Rounding two addends over the lower one's exponent rounds their sum.
proof fn lemma_plus_aligned(high: Rounded, low: Rounded, x: nat, excess: nat)
    requires
        high.wf(),
        low.wf(),
        high.exponent >= low.exponent,
        x == high.digits * pow2((high.exponent - low.exponent) as nat) + low.digits,
        excess == if x < pow2((high.exponent - low.exponent + 53) as nat) {
            (high.exponent - low.exponent) as nat
        } else {
            (high.exponent - low.exponent + 1) as nat
        },
    ensures
        round_ratio(high.value() + low.value(), 1) == nearest_even(x, pow2(excess)) * pow2(
            low.exponent as nat + excess,
        ),
        pow2(52) <= nearest_even(x, pow2(excess)) <= pow2(53),
{
    let gap = (high.exponent - low.exponent) as nat;
    let f = low.exponent as nat;
    let c = pow2(f);
    lemma_pow2_pos(f);
    lemma_pow2_pos(gap);
    lemma_pow2_pos(excess);
    lemma_pow2_adds(gap, f);
    let n = x * c;
    assert(n == high.value() + low.value()) by (nonlinear_arith)
        requires
            n == x * c,
            x == high.digits * pow2(gap) + low.digits,
            high.value() == high.digits * pow2(high.exponent as nat),
            pow2(high.exponent as nat) == pow2(gap) * c,
            low.value() == low.digits * c,
    ;
    // The bounds of the aligned sum.
    lemma_pow2_adds(52, gap);
    lemma_pow2_adds(53, gap);
    lemma_pow2_unfold(53 + gap + 1);
    bits::lemma_pow2_monotonic(53, 53 + gap);
    lemma_mul_inequality(pow2(52) as int, high.digits as int, pow2(gap) as int);
    lemma_mul_inequality(high.digits as int, pow2(53) - 1, pow2(gap) as int);
    lemma_mul_is_distributive_sub_other_way(pow2(gap) as int, pow2(53) as int, 1);
    assert(x < pow2(53 + gap + 1));
    assert(pow2(52 + excess) <= x < pow2(53 + excess));
    // The same, over the lower exponent.
    lemma_pow2_adds(52 + excess, f);
    lemma_pow2_adds(53 + excess, f);
    lemma_pow2_adds(excess, f);
    lemma_mul_inequality(pow2(52 + excess) as int, x as int, c as int);
    lemma_mul_strict_inequality(x as int, pow2(53 + excess) as int, c as int);
    assert(52 + excess + f == 52 + (excess + f));
    assert(53 + excess + f == 53 + (excess + f));
    lemma_round_ratio(n, 1, excess + f);
    lemma_nearest_even_scale(x, pow2(excess), c);
}

} // verus!
