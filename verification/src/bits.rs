//! Binary digits of natural numbers.

use vstd::arithmetic::mul::*;
use vstd::arithmetic::power2::*;
use vstd::prelude::*;
use vstd::std_specs::bits::*;

verus! {

/// Number of binary digits of `n`; zero has none.
pub open spec fn bit_length(n: nat) -> nat
    decreases n,
{
    if n == 0 {
        0
    } else {
        1 + bit_length(n / 2)
    }
}

/// `pow2` never decreases.
pub proof fn lemma_pow2_monotonic(a: nat, b: nat)
    requires
        a <= b,
    ensures
        pow2(a) <= pow2(b),
{
    if a < b {
        lemma_pow2_strictly_increases(a, b);
    }
}

/// A positive number lies between two consecutive powers of two, which its length names.
pub proof fn lemma_bit_length_bounds(n: nat)
    requires
        n > 0,
    ensures
        bit_length(n) > 0,
        pow2((bit_length(n) - 1) as nat) <= n < pow2(bit_length(n)),
    decreases n,
{
    lemma2_to64();
    lemma_pow2_unfold(bit_length(n));
    if n / 2 > 0 {
        lemma_bit_length_bounds(n / 2);
        lemma_pow2_unfold((bit_length(n) - 1) as nat);
    } else {
        assert(n == 1);
        assert(bit_length(0) == 0);
    }
}

/// A number between two consecutive powers of two has the length that they name.
pub proof fn lemma_bit_length_is(n: nat, length: nat)
    requires
        length > 0,
        pow2((length - 1) as nat) <= n < pow2(length),
    ensures
        bit_length(n) == length,
{
    lemma_pow2_pos((length - 1) as nat);
    lemma_bit_length_bounds(n);
    if bit_length(n) < length {
        lemma_pow2_monotonic(bit_length(n), (length - 1) as nat);
    }
    if length < bit_length(n) {
        lemma_pow2_monotonic(length, (bit_length(n) - 1) as nat);
    }
}

/// Fewer than `2^width` means at most `width` digits.
pub proof fn lemma_bit_length_at_most(n: nat, width: nat)
    requires
        n < pow2(width),
    ensures
        bit_length(n) <= width,
{
    if n > 0 && bit_length(n) > width {
        lemma_bit_length_bounds(n);
        lemma_pow2_monotonic(width, (bit_length(n) - 1) as nat);
    }
}

/// Appending `shift` zero digits makes a positive number `shift` digits longer.
pub proof fn lemma_bit_length_shift(n: nat, shift: nat)
    requires
        n > 0,
    ensures
        bit_length(n * pow2(shift)) == bit_length(n) + shift,
{
    let b = bit_length(n);
    lemma_bit_length_bounds(n);
    lemma_pow2_pos(shift);
    lemma_pow2_adds((b - 1) as nat, shift);
    lemma_pow2_adds(b, shift);
    lemma_mul_inequality(pow2((b - 1) as nat) as int, n as int, pow2(shift) as int);
    lemma_mul_strict_inequality(n as int, pow2(b) as int, pow2(shift) as int);
    lemma_bit_length_is(n * pow2(shift), b + shift);
}

/// The leading zeros of a 64-bit word are the digits that its value lacks.
pub proof fn lemma_leading_zeros(x: u64)
    ensures
        u64_leading_zeros(x) == 64 - bit_length(x as nat),
    decreases x,
{
    reveal(u64_leading_zeros);
    if x > 0 {
        lemma_leading_zeros(x / 2);
    }
}

} // verus!
