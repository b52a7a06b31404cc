//! What each operation does to a sketch, or makes of it, in terms of numbers and sequences alone.

use std::hash::{DefaultHasher, Hash};

use vstd::arithmetic::div_mod::*;
use vstd::arithmetic::mul::*;
use vstd::arithmetic::power::*;
use vstd::arithmetic::power2::*;
use vstd::prelude::*;
use vstd::std_specs::hash::*;

use crate::bits;
use crate::error;
use crate::estimator;
use crate::exponential;
use crate::hyperloglog;
use crate::hyperloglog::HyperLogLogShadow;
use crate::rounding;
use crate::sketch;
use crate::sketch::Sketch;

verus! {

/// A sketch is well formed exactly if it has between 4 and 16 index bits, a register for each
/// number that they can spell, and a counter that fits in 64 bits.
pub proof fn law_well_formed(s: Sketch)
    ensures
        s.wf() <==> {
            &&& 4 <= s.precision <= 16
            &&& s.registers.len() == pow2(s.precision)
            &&& s.total_added <= 0xffff_ffff_ffff_ffff
        },
{
}

/// A new sketch has the precision asked for, a zero in each of its registers, and has counted
/// nothing.
pub proof fn law_empty(precision: nat)
    ensures
        Sketch::empty(precision).precision == precision,
        Sketch::empty(precision).registers.len() == pow2(precision),
        forall|i: int|
            0 <= i < pow2(precision) ==> #[trigger] Sketch::empty(precision).registers[i] == 0,
        Sketch::empty(precision).total_added == 0,
{
}

/// A hash is its register index, followed by the `64 - p` bits of its tail.
pub proof fn law_hash_is_index_and_tail(hash: u64, precision: nat)
    requires
        4 <= precision <= 16,
    ensures
        hash == sketch::register_index(hash, precision) * pow2((64 - precision) as nat)
            + sketch::hash_tail(hash, precision),
        sketch::register_index(hash, precision) < pow2(precision),
        sketch::hash_tail(hash, precision) < pow2((64 - precision) as nat),
{
    let unit = pow2((64 - precision) as nat);
    lemma_pow2_pos((64 - precision) as nat);
    lemma_fundamental_div_mod(hash as int, unit as int);
    lemma_mul_is_commutative(unit as int, sketch::register_index(hash, precision) as int);
    lemma_mod_bound(hash as int, unit as int);
    sketch::lemma_register_index(hash, precision);
}

/// The rank of a hash says where the first one of its tail stands: of `64 - p` bits, `rank - 1`
/// are zeros and the next is a one. A tail of zeros alone has the rank `65 - p`.
pub proof fn law_rank_is_the_place_of_the_first_one(hash: u64, precision: nat)
    requires
        4 <= precision <= 16,
    ensures
        1 <= sketch::rank(hash, precision) <= 65 - precision,
        hash as nat % pow2((64 - precision) as nat) == 0 ==> sketch::rank(hash, precision) == 65
            - precision,
        hash as nat % pow2((64 - precision) as nat) > 0 ==> {
            &&& sketch::rank(hash, precision) <= 64 - precision
            &&& pow2((64 - precision - sketch::rank(hash, precision)) as nat) <= hash as nat % pow2(
                (64 - precision) as nat,
            )
            &&& hash as nat % pow2((64 - precision) as nat) < pow2(
                (65 - precision - sketch::rank(hash, precision)) as nat,
            )
        },
{
    let tail = hash as nat % pow2((64 - precision) as nat);
    sketch::lemma_rank(hash, precision);
    if tail > 0 {
        lemma_pow2_pos((64 - precision) as nat);
        lemma_mod_bound(hash as int, pow2((64 - precision) as nat) as int);
        bits::lemma_bit_length_at_most(tail, (64 - precision) as nat);
        bits::lemma_bit_length_bounds(tail);
    } else {
        assert(bits::bit_length(0) == 0);
    }
}

/// What a hash does: where it is the number `i` in its top `p` bits, followed by a tail whose first
/// one stands in place `k` (or, for a tail of zeros, `k` is one past its end), register `i` takes
/// the larger of its value and `k`, no other register changes, and the counter goes up by one
/// unless it is at its limit.
pub proof fn law_observe(s: Sketch, hash: u64, i: nat, tail: nat, k: nat)
    requires
        s.wf(),
        hash == i * pow2((64 - s.precision) as nat) + tail,
        tail < pow2((64 - s.precision) as nat),
        tail == 0 ==> k == 65 - s.precision,
        tail > 0 ==> {
            &&& 1 <= k <= 64 - s.precision
            &&& pow2((64 - s.precision - k) as nat) <= tail
            &&& tail < pow2((65 - s.precision - k) as nat)
        },
    ensures
        i < s.registers.len(),
        s.observe(hash).precision == s.precision,
        s.observe(hash).registers.len() == s.registers.len(),
        s.observe(hash).registers[i as int] == if s.registers[i as int] < k {
            k as int
        } else {
            s.registers[i as int] as int
        },
        forall|j: int|
            0 <= j < s.registers.len() && j != i ==> #[trigger] s.observe(hash).registers[j]
                == s.registers[j],
        s.observe(hash).total_added == if s.total_added < 0xffff_ffff_ffff_ffff {
            s.total_added + 1
        } else {
            0xffff_ffff_ffff_ffff
        },
{
    let low = (64 - s.precision) as nat;
    let unit = pow2(low);
    lemma_pow2_pos(low);
    lemma_fundamental_div_mod_converse(hash as int, unit as int, i as int, tail as int);
    sketch::lemma_register_index(hash, s.precision);
    sketch::lemma_rank(hash, s.precision);
    if tail > 0 {
        bits::lemma_bit_length_is(tail, (65 - s.precision - k) as nat);
    } else {
        assert(bits::bit_length(0) == 0);
    }
}

/// Values that come one after another are taken in one after another.
pub proof fn law_observe_all(s: Sketch, hashes: Seq<u64>)
    ensures
        s.observe_all(hashes) == hashes.fold_left(
            s,
            |so_far: Sketch, hash: u64| so_far.observe(hash),
        ),
    decreases hashes.len(),
{
    if hashes.len() > 0 {
        law_observe_all(s, hashes.drop_last());
    }
}

/// What a merge does: each register takes the larger of the two values that stand in its place,
/// and the counters add up, as far as 64 bits go.
pub proof fn law_merge(a: Sketch, b: Sketch)
    requires
        a.wf(),
        b.wf(),
        a.precision == b.precision,
    ensures
        a.merge(b).precision == a.precision,
        a.merge(b).registers.len() == a.registers.len(),
        forall|i: int|
            0 <= i < a.registers.len() ==> #[trigger] a.merge(b).registers[i] == if a.registers[i]
                < b.registers[i] {
                b.registers[i]
            } else {
                a.registers[i]
            },
        a.merge(b).total_added == if a.total_added + b.total_added <= 0xffff_ffff_ffff_ffff {
            a.total_added + b.total_added
        } else {
            0xffff_ffff_ffff_ffff
        },
{
}

/// A value counts as the whole digest of what it writes to a fresh hasher.
pub proof fn law_value_counts_as_its_digest<T: Hash + ?Sized>(
    before: Sketch,
    value: &T,
    after: Sketch,
)
    ensures
        hyperloglog::takes_in(before, value, after) <==> exists|writes: Seq<Seq<u8>>|
            #[trigger] hyperloglog::may_write(value, writes) && after == before.observe(
                DefaultHasher::spec_finish(writes),
            ),
{
}

/// A byte key counts as the whole digest of what it writes to a fresh hasher.
pub proof fn law_key_counts_as_its_digest(key: Seq<u8>)
    ensures
        hyperloglog::key_digest(key) == DefaultHasher::spec_finish(
            hyperloglog::slice_writes(key, usize::BITS, vstd::endian::endianness() is Little),
        ),
{
}

/// The parts of a sketch on the wire are its fields, one for one.
pub proof fn law_parts_are_fields(parts: HyperLogLogShadow)
    ensures
        parts.sketch().precision == parts.precision,
        parts.sketch().registers == parts.registers@,
        parts.sketch().total_added == parts.total_added,
{
}

/// Two lots of parts that spell the same sketch are the same parts.
pub proof fn law_parts_can_be_read_back(a: HyperLogLogShadow, b: HyperLogLogShadow)
    requires
        a.sketch() == b.sketch(),
    ensures
        a.precision == b.precision,
        a.registers@ == b.registers@,
        a.total_added == b.total_added,
{
    law_parts_are_fields(a);
    law_parts_are_fields(b);
}

/// A decimal numeral is made of digits, has no leading zero, and spells its number: each digit
/// counts ten times the one behind it.
pub proof fn law_decimal_spells_its_number(n: nat)
    ensures
        error::decimal(n).len() > 0,
        forall|i: int|
            0 <= i < error::decimal(n).len() ==> '0' <= #[trigger] error::decimal(n)[i] <= '9',
        n > 0 ==> error::decimal(n)[0] != '0',
        n == 0 ==> error::decimal(n) == seq!['0'],
        error::decimal(n).fold_left(
            0int,
            |so_far: int, digit: char| 10 * so_far + (digit as int - '0' as int),
        ) == n,
    decreases n,
{
    let text = error::decimal(n);
    let step = |so_far: int, digit: char| 10 * so_far + (digit as int - '0' as int);
    if n < 10 {
        assert(text.drop_last() =~= Seq::<char>::empty());
        assert(text.drop_last().fold_left(0int, step) == 0);
        assert(text.fold_left(0int, step) == step(0, text.last()));
    } else {
        let front = error::decimal(n / 10);
        law_decimal_spells_its_number(n / 10);
        assert(text.drop_last() =~= front);
        assert(text.fold_left(0int, step) == step(front.fold_left(0int, step), text.last()));
        assert forall|i: int| 0 <= i < text.len() implies '0' <= #[trigger] text[i] <= '9' by {
            if i < front.len() {
                assert(text[i] == front[i]);
            }
        }
        assert(text[0] == front[0]);
    }
}

/// What the three errors say.
pub proof fn law_error_texts(precision: nat, length: nat, expected: nat, other: nat)
    ensures
        error::precision_text(precision) == "HyperLogLog: precision "@ + error::decimal(precision)
            + " out of [4, 16]"@,
        error::length_text(length, expected, precision) == "HyperLogLog: register bank length "@
            + error::decimal(length) + " != expected "@ + error::decimal(expected)
            + " for precision "@ + error::decimal(precision),
        error::mismatch_text(precision, other) == "HyperLogLog::merge: precision mismatch ("@
            + error::decimal(precision) + " vs "@ + error::decimal(other) + ")"@,
{
    reveal_strlit(" out of [4, 16]");
    reveal_strlit(" out of [");
    reveal_strlit(", ");
    reveal_strlit("]");
    assert(error::decimal(16) =~= seq!['1', '6']) by {
        assert(error::decimal(1) =~= seq!['1']);
    }
    assert(error::decimal(4) =~= seq!['4']);
    assert(error::precision_text(precision) =~= "HyperLogLog: precision "@ + error::decimal(
        precision,
    ) + " out of [4, 16]"@);
}

/// The bias correction is 0.673, 0.697 and 0.709 for the three smallest banks, to the nearest unit
/// of `2^-53`, and `0.7213 / (1 + 1.079 / m)` for a larger bank of `m` registers, to within one.
pub proof fn law_bias_correction(precision: nat)
    requires
        4 <= precision <= 16,
    ensures
        precision == 4 ==> -500 <= 1000 * estimator::alpha(precision) - 673 * pow2(53) <= 500,
        precision == 5 ==> -500 <= 1000 * estimator::alpha(precision) - 697 * pow2(53) <= 500,
        precision == 6 ==> -500 <= 1000 * estimator::alpha(precision) - 709 * pow2(53) <= 500,
        precision >= 7 ==> -10 * (1000 * pow2(precision) + 1079) < 10 * (1000 * pow2(precision)
            + 1079) * estimator::alpha(precision) - 7213 * pow2(precision) * pow2(53) < 10 * (1000
            * pow2(precision) + 1079),
{
    lemma2_to64();
    lemma2_to64_rest();
    estimator::lemma_alpha_values();
    if precision >= 7 {
        let a = estimator::alpha(precision);
        let m = pow2(precision);
        assert(precision == 7 || precision == 8 || precision == 9 || precision == 10 || precision
            == 11 || precision == 12 || precision == 13 || precision == 14 || precision == 15
            || precision == 16);
        assert(m * pow2(53) == m * 0x20_0000_0000_0000);
    }
}

/// The exact harmonic sum adds up `2^-r` over the registers, in units of `2^-307`.
pub proof fn law_exact_harmonic_sum(registers: Seq<u8>)
    ensures
        estimator::exact_harmonic_sum(registers) == registers.fold_left(
            0nat,
            |sum: nat, r: u8| sum + pow2((307 - r) as nat),
        ),
    decreases registers.len(),
{
    if registers.len() > 0 {
        law_exact_harmonic_sum(registers.drop_last());
    }
}

/// The empty registers are those that hold zero.
pub proof fn law_empty_registers(registers: Seq<u8>)
    ensures
        estimator::empty_registers(registers) == registers.filter(|r: u8| r == 0).len(),
    decreases registers.len(),
{
    reveal(Seq::filter);
    if registers.len() > 0 {
        law_empty_registers(registers.drop_last());
    }
}

/// How the raw estimate, times the exact sum, compares with what it stands for.
proof fn lemma_raw_times_sum(s: Sketch, sum: nat, top: nat)
    requires
        s.wf(),
        sum == s.registers.fold_left(0nat, |sum: nat, r: u8| sum + pow2((307 - r) as nat)),
        top == estimator::alpha(s.precision) * pow2(2 * s.precision + 306),
    ensures
        sum > 0,
        0x4_0000_0000 * (estimator::raw_estimate(s.precision, s.registers) * sum) <= 0x4_0000_0001
            * top,
        0x3_ffff_ffff * top <= 0x4_0000_0000 * (estimator::raw_estimate(s.precision, s.registers)
            * sum),
{
    law_exact_harmonic_sum(s.registers);
    estimator::lemma_raw_estimate_close(s.precision, s.registers);
    lemma2_to64();
    lemma2_to64_rest();
    lemma_pow2_pos(s.precision);
    lemma_pow2_pos((307 - s.registers.last()) as nat);
    let x = estimator::raw_estimate(s.precision, s.registers) * sum;
    let gap = rounding::distance(x, top);
    assert(x <= top + gap && top <= x + gap);
    assert(0x4_0000_0000 * gap <= top) by (nonlinear_arith)
        requires
            pow2(34) * gap <= top,
            pow2(34) == 0x4_0000_0000,
    ;
}

/// Linear counting is for banks in which some register is empty and the bias-corrected harmonic
/// mean is at most two and a half times their number. What the mean is compared by is one part in
/// `2^34` off at most.
pub proof fn law_small_range(s: Sketch, sum: nat, top: nat, limit: nat)
    requires
        s.wf(),
        // The mean is `top / sum` and the limit is `limit / sum`, in units of `2^-52`.
        sum == s.registers.fold_left(0nat, |sum: nat, r: u8| sum + pow2((307 - r) as nat)),
        top == estimator::alpha(s.precision) * pow2(2 * s.precision + 306),
        limit == 5 * 0x8_0000_0000_0000 * pow2(s.precision) * sum,
    ensures
        s.registers.filter(|r: u8| r == 0).len() == 0 ==> !estimator::small_range(
            s.precision,
            s.registers,
        ),
        0x4_0000_0000 * limit < 0x3_ffff_ffff * top ==> !estimator::small_range(
            s.precision,
            s.registers,
        ),
        s.registers.filter(|r: u8| r == 0).len() > 0 && 0x4_0000_0001 * top <= 0x4_0000_0000 * limit
            ==> estimator::small_range(s.precision, s.registers),
{
    let raw = estimator::raw_estimate(s.precision, s.registers);
    let bound: nat = 5 * 0x8_0000_0000_0000 * pow2(s.precision);
    law_empty_registers(s.registers);
    lemma_raw_times_sum(s, sum, top);
    lemma2_to64();
    lemma2_to64_rest();
    let m = pow2(s.precision);
    assert(5 * m * pow2(51) == bound) by (nonlinear_arith)
        requires
            pow2(51) == 0x8_0000_0000_0000,
            bound == 5 * 0x8_0000_0000_0000 * m,
    ;
    if raw <= bound {
        lemma_mul_inequality(raw as int, bound as int, sum as int);
    } else {
        lemma_mul_strict_inequality(bound as int, raw as int, sum as int);
    }
}

/// Past the small range the estimate is the bias-corrected harmonic mean, rounded to an integer: it
/// is less than half a unit off, and one part in `2^34`, unless 64 bits do not hold it.
pub proof fn law_estimate_is_the_harmonic_mean(s: Sketch, count: nat, sum: nat, top: nat)
    requires
        s.wf(),
        !estimator::small_range(s.precision, s.registers),
        count == estimator::cardinality(s.precision, s.registers),
        // The mean is `top / sum`, in units of `2^-52`.
        sum == s.registers.fold_left(0nat, |sum: nat, r: u8| sum + pow2((307 - r) as nat)),
        top == estimator::alpha(s.precision) * pow2(2 * s.precision + 306),
    ensures
        count <= 0xffff_ffff_ffff_ffff,
        0x4_0000_0000 * ((2 * count - 1) * 0x8_0000_0000_0000 * sum) <= 0x4_0000_0001 * top,
        count < 0xffff_ffff_ffff_ffff ==> 0x3_ffff_ffff * top <= 0x4_0000_0000 * ((2 * count + 1)
            * 0x8_0000_0000_0000 * sum),
{
    let raw = estimator::raw_estimate(s.precision, s.registers);
    let q = (raw + pow2(51)) / pow2(52);
    lemma_raw_times_sum(s, sum, top);
    lemma2_to64();
    lemma2_to64_rest();
    let low = (2 * count - 1) * 0x8_0000_0000_0000;
    let high = (2 * count + 1) * 0x8_0000_0000_0000;
    assert(low <= raw);
    assert(count < 0xffff_ffff_ffff_ffff ==> raw <= high);
    lemma_mul_inequality(low, raw as int, sum as int);
    if count < 0xffff_ffff_ffff_ffff {
        lemma_mul_inequality(raw as int, high as int, sum as int);
    }
}

/// In the small range the estimate is the integer closest to `m ln(m / empty)`: with `count` for
/// the estimate, `m` for the number of registers and `empty` for the zeros among them,
/// `(count - 1/2) / m <= ln(m / empty) <= (count + 1/2 + 2^-33) / m`.
///
/// It is stated by what defines the logarithm: a number `y` is at most `ln x` exactly if
/// `(1 + y/n)^n <= x` for every `n`, and at least `ln x` exactly if `(1 - y/n)^n <= 1/x` for every
/// `n > y`.
pub proof fn law_estimate_is_the_linear_count(
    s: Sketch,
    count: nat,
    empty: nat,
    m: nat,
    n: nat,
    more: nat,
)
    requires
        s.wf(),
        estimator::small_range(s.precision, s.registers),
        count == estimator::cardinality(s.precision, s.registers),
        empty == s.registers.filter(|r: u8| r == 0).len(),
        m == s.registers.len(),
        n > 0,
        // `(count + 1/2 + 2^-33) / m` is `more / (2^33 m)`.
        more == 0x1_0000_0000 * (2 * count + 1) + 1,
    ensures
        count >= 1 ==> empty * pow(2 * m * n + 2 * count - 1, n) <= m * pow(
            (2 * m * n) as int,
            n,
        ),
        0x2_0000_0000 * m * n > more ==> m * pow(0x2_0000_0000 * m * n - more, n) <= empty * pow(
            (0x2_0000_0000 * m * n) as int,
            n,
        ),
{
    law_empty_registers(s.registers);
    estimator::lemma_empty_registers(s.registers);
    lemma2_to64();
    bits::lemma_pow2_monotonic(s.precision, 16);
    exponential::lemma_log_count_between_powers(m, empty);
    if count >= 1 {
        exponential::lemma_at_most_ln_in_integers((2 * count - 1) as nat, 2 * m, m, empty, n);
    }
    if 0x2_0000_0000 * m * n > more {
        exponential::lemma_at_least_ln_in_integers(more, 0x2_0000_0000 * m, m, empty, n);
    }
}

} // verus!
