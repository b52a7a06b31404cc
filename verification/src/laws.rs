//! What holds of sketches as a whole, whatever values they take in.

use std::hash::{DefaultHasher, Hash};

use vstd::arithmetic::power2::*;
use vstd::prelude::*;
use vstd::std_specs::hash::*;

use crate::bits;
use crate::estimator;
use crate::hyperloglog;
use crate::logarithm;
use crate::rounding;
use crate::sketch;
use crate::sketch::Sketch;

verus! {

/// Whether no register has got past the largest rank that a hash can have.
pub open spec fn ranks_bounded(s: Sketch) -> bool {
    forall|i: int| 0 <= i < s.registers.len() ==> s.registers[i] <= 65 - s.precision
}

/// Whether every register of `b` has got at least as far as the one of `a`.
pub open spec fn reaches(a: Sketch, b: Sketch) -> bool {
    &&& a.precision == b.precision
    &&& a.registers.len() == b.registers.len()
    &&& forall|i: int| 0 <= i < a.registers.len() ==> a.registers[i] <= b.registers[i]
}

/// The sketch of no value is well formed, for every allowed precision.
pub proof fn law_empty_is_well_formed(precision: nat)
    requires
        sketch::valid_precision(precision),
    ensures
        Sketch::empty(precision).wf(),
        ranks_bounded(Sketch::empty(precision)),
{
}

/// Taking in a value keeps a sketch well formed, of the same precision, and its registers within
/// the ranks that a hash can have.
pub proof fn law_observe_keeps_well_formed(s: Sketch, hash: u64)
    requires
        s.wf(),
    ensures
        s.observe(hash).wf(),
        s.observe(hash).precision == s.precision,
        ranks_bounded(s) ==> ranks_bounded(s.observe(hash)),
{
    sketch::lemma_register_index(hash, s.precision);
    sketch::lemma_rank(hash, s.precision);
}

/// Taking in any number of values keeps a sketch well formed, of the same precision, and its
/// registers within the ranks that a hash can have.
pub proof fn law_observe_all_keeps_well_formed(s: Sketch, hashes: Seq<u64>)
    requires
        s.wf(),
    ensures
        s.observe_all(hashes).wf(),
        s.observe_all(hashes).precision == s.precision,
        ranks_bounded(s) ==> ranks_bounded(s.observe_all(hashes)),
    decreases hashes.len(),
{
    if hashes.len() > 0 {
        law_observe_all_keeps_well_formed(s, hashes.drop_last());
        law_observe_keeps_well_formed(s.observe_all(hashes.drop_last()), hashes.last());
    }
}

/// Folding in another sketch keeps a sketch well formed, of the same precision, and the registers
/// of both within the ranks that a hash can have.
pub proof fn law_merge_keeps_well_formed(a: Sketch, b: Sketch)
    requires
        a.wf(),
        b.wf(),
        a.precision == b.precision,
    ensures
        a.merge(b).wf(),
        a.merge(b).precision == a.precision,
        ranks_bounded(a) && ranks_bounded(b) ==> ranks_bounded(a.merge(b)),
{
}

/// A value reaches one register and leaves every other one alone.
pub proof fn law_observe_touches_one_register(s: Sketch, hash: u64, i: int)
    requires
        s.wf(),
        0 <= i < s.registers.len(),
    ensures
        i != sketch::register_index(hash, s.precision) ==> s.observe(hash).registers[i]
            == s.registers[i],
        i == sketch::register_index(hash, s.precision) ==> s.observe(hash).registers[i] as nat
            == if sketch::rank(hash, s.precision) > s.registers[i] {
            sketch::rank(hash, s.precision)
        } else {
            s.registers[i] as nat
        },
{
    sketch::lemma_register_index(hash, s.precision);
    sketch::lemma_rank(hash, s.precision);
}

/// Registers never decrease as values come in.
pub proof fn law_observe_never_decreases(s: Sketch, hash: u64)
    requires
        s.wf(),
    ensures
        reaches(s, s.observe(hash)),
{
    sketch::lemma_register_index(hash, s.precision);
}

/// Registers never decrease in a merge: the result has got at least as far as both sketches.
pub proof fn law_merge_never_decreases(a: Sketch, b: Sketch)
    requires
        a.wf(),
        b.wf(),
        a.precision == b.precision,
    ensures
        reaches(a, a.merge(b)),
        reaches(b, a.merge(b)),
{
}

/// A merged sketch is the least that has got as far as both: every sketch that has, has got as
/// far as the merged one.
pub proof fn law_merge_is_least(a: Sketch, b: Sketch, c: Sketch)
    requires
        a.wf(),
        b.wf(),
        reaches(a, c),
        reaches(b, c),
    ensures
        reaches(a.merge(b), c),
{
}

/// A value that comes twice leaves the registers as it did the first time.
pub proof fn law_observe_is_idempotent(s: Sketch, hash: u64)
    requires
        s.wf(),
    ensures
        s.observe(hash).observe(hash).registers == s.observe(hash).registers,
{
    sketch::lemma_register_index(hash, s.precision);
    assert(s.observe(hash).observe(hash).registers =~= s.observe(hash).registers);
}

/// The order of two values does not matter.
pub proof fn law_observe_commutes(s: Sketch, first: u64, second: u64)
    requires
        s.wf(),
    ensures
        s.observe(first).observe(second) == s.observe(second).observe(first),
{
    sketch::lemma_register_index(first, s.precision);
    sketch::lemma_register_index(second, s.precision);
    assert(s.observe(first).observe(second) =~= s.observe(second).observe(first));
}

/// The counter counts every value, repeated or not, until it saturates.
pub proof fn law_total_added_counts_values(s: Sketch, hashes: Seq<u64>)
    requires
        s.wf(),
    ensures
        s.observe_all(hashes).total_added == sketch::saturated(s.total_added + hashes.len()),
    decreases hashes.len(),
{
    if hashes.len() > 0 {
        law_total_added_counts_values(s, hashes.drop_last());
    }
}

/// A register holds the largest rank among the values that were routed to it: it has got as far
/// as each of them, and no further than where it started or one of them took it.
pub proof fn law_register_is_largest_rank(s: Sketch, hashes: Seq<u64>, i: int)
    requires
        s.wf(),
        0 <= i < s.registers.len(),
    ensures
        s.registers[i] <= s.observe_all(hashes).registers[i],
        forall|j: int|
            0 <= j < hashes.len() && sketch::register_index(#[trigger] hashes[j], s.precision) == i
                ==> sketch::rank(hashes[j], s.precision) <= s.observe_all(hashes).registers[i],
        s.observe_all(hashes).registers[i] == s.registers[i] || exists|j: int|
            0 <= j < hashes.len() && sketch::register_index(#[trigger] hashes[j], s.precision) == i
                && sketch::rank(hashes[j], s.precision) == s.observe_all(hashes).registers[i],
    decreases hashes.len(),
{
    if hashes.len() > 0 {
        let front = hashes.drop_last();
        let last = hashes.len() - 1;
        let before = s.observe_all(front);
        let after = s.observe_all(hashes);
        law_register_is_largest_rank(s, front, i);
        law_observe_all_keeps_well_formed(s, front);
        law_observe_touches_one_register(before, hashes.last(), i);
        assert(after == before.observe(hashes.last()));
        assert forall|j: int|
            0 <= j < hashes.len() && sketch::register_index(
                #[trigger] hashes[j],
                s.precision,
            ) == i implies sketch::rank(hashes[j], s.precision) <= after.registers[i] by {
            if j < last {
                assert(front[j] == hashes[j]);
            }
        }
        if after.registers[i] != s.registers[i] {
            if after.registers[i] == before.registers[i] {
                let j = choose|j: int|
                    0 <= j < front.len() && sketch::register_index(
                        #[trigger] front[j],
                        s.precision,
                    ) == i && sketch::rank(front[j], s.precision) == before.registers[i];
                assert(front[j] == hashes[j]);
            } else {
                assert(hashes[last] == hashes.last());
            }
        }
    }
}

/// Only which values came matters to the registers, not how often, nor in what order.
pub proof fn law_registers_depend_on_the_set_of_values(s: Sketch, a: Seq<u64>, b: Seq<u64>)
    requires
        s.wf(),
        forall|hash: u64| a.contains(hash) <==> b.contains(hash),
    ensures
        s.observe_all(a).registers == s.observe_all(b).registers,
{
    law_observe_all_keeps_well_formed(s, a);
    law_observe_all_keeps_well_formed(s, b);
    assert forall|i: int| 0 <= i < s.registers.len() implies s.observe_all(a).registers[i]
        == s.observe_all(b).registers[i] by {
        lemma_fewer_values_reach_no_further(s, a, b, i);
        lemma_fewer_values_reach_no_further(s, b, a, i);
    }
    assert(s.observe_all(a).registers =~= s.observe_all(b).registers);
}

/// A register gets no further with some of the values than with all of them.
proof fn lemma_fewer_values_reach_no_further(s: Sketch, few: Seq<u64>, many: Seq<u64>, i: int)
    requires
        s.wf(),
        0 <= i < s.registers.len(),
        forall|hash: u64| few.contains(hash) ==> many.contains(hash),
    ensures
        s.observe_all(few).registers[i] <= s.observe_all(many).registers[i],
{
    law_register_is_largest_rank(s, few, i);
    law_register_is_largest_rank(s, many, i);
    if s.observe_all(few).registers[i] != s.registers[i] {
        let j = choose|j: int|
            0 <= j < few.len() && sketch::register_index(#[trigger] few[j], s.precision) == i
                && sketch::rank(few[j], s.precision) == s.observe_all(few).registers[i];
        assert(few.contains(few[j]));
        let k = choose|k: int| 0 <= k < many.len() && many[k] == few[j];
        assert(many[k] == few[j]);
    }
}

/// A value that was taken in before changes neither the registers nor the estimate.
pub proof fn law_duplicates_do_not_count(s: Sketch, hashes: Seq<u64>, hash: u64)
    requires
        s.wf(),
        hashes.contains(hash),
    ensures
        s.observe_all(hashes).observe(hash).registers == s.observe_all(hashes).registers,
        estimator::cardinality(s.precision, s.observe_all(hashes).observe(hash).registers)
            == estimator::cardinality(s.precision, s.observe_all(hashes).registers),
{
    let all = hashes.push(hash);
    assert(all.drop_last() =~= hashes);
    assert(s.observe_all(all) == s.observe_all(hashes).observe(hash));
    assert forall|h: u64| all.contains(h) <==> hashes.contains(h) by {
        if hashes.contains(h) {
            let j = choose|j: int| 0 <= j < hashes.len() && hashes[j] == h;
            assert(all[j] == h);
        }
        if all.contains(h) {
            let j = choose|j: int| 0 <= j < all.len() && all[j] == h;
            if j < hashes.len() {
                assert(hashes[j] == h);
            }
        }
    }
    law_registers_depend_on_the_set_of_values(s, all, hashes);
}

/// The order of the two sketches of a merge does not matter.
pub proof fn law_merge_commutes(a: Sketch, b: Sketch)
    requires
        a.wf(),
        b.wf(),
        a.precision == b.precision,
    ensures
        a.merge(b) == b.merge(a),
{
    assert(a.merge(b) =~= b.merge(a));
}

/// The grouping of three sketches in two merges does not matter.
pub proof fn law_merge_is_associative(a: Sketch, b: Sketch, c: Sketch)
    requires
        a.wf(),
        b.wf(),
        c.wf(),
        a.precision == b.precision,
        b.precision == c.precision,
    ensures
        a.merge(b).merge(c) == a.merge(b.merge(c)),
{
    assert(a.merge(b).merge(c) =~= a.merge(b.merge(c)));
}

/// Folding a sketch into itself leaves its registers.
pub proof fn law_merge_is_idempotent(a: Sketch)
    requires
        a.wf(),
    ensures
        a.merge(a).registers == a.registers,
{
    assert(a.merge(a).registers =~= a.registers);
}

/// Folding in an empty sketch changes nothing.
pub proof fn law_empty_is_neutral(a: Sketch)
    requires
        a.wf(),
    ensures
        a.merge(Sketch::empty(a.precision)) == a,
        Sketch::empty(a.precision).merge(a) == a,
{
    assert(a.merge(Sketch::empty(a.precision)) =~= a);
    assert(Sketch::empty(a.precision).merge(a) =~= a);
}

/// A merge may be done before a value comes in or after.
pub proof fn law_merge_after_observe(a: Sketch, b: Sketch, hash: u64)
    requires
        a.wf(),
        b.wf(),
        a.precision == b.precision,
    ensures
        a.merge(b.observe(hash)) == a.merge(b).observe(hash),
        a.observe(hash).merge(b) == a.merge(b).observe(hash),
{
    sketch::lemma_register_index(hash, a.precision);
    assert(a.merge(b.observe(hash)) =~= a.merge(b).observe(hash));
    assert(a.observe(hash).merge(b) =~= a.merge(b).observe(hash));
}

/// Shards can be counted apart: a sketch of some values, with a sketch of others folded in, is
/// the sketch of all of them, and so has its estimate.
pub proof fn law_merge_is_the_sketch_of_all_values(s: Sketch, a: Seq<u64>, b: Seq<u64>)
    requires
        s.wf(),
    ensures
        s.observe_all(a).merge(Sketch::empty(s.precision).observe_all(b)) == s.observe_all(a + b),
        estimator::cardinality(
            s.precision,
            s.observe_all(a).merge(Sketch::empty(s.precision).observe_all(b)).registers,
        ) == estimator::cardinality(s.precision, s.observe_all(a + b).registers),
    decreases b.len(),
{
    let e = Sketch::empty(s.precision);
    law_observe_all_keeps_well_formed(s, a);
    if b.len() == 0 {
        assert(a + b =~= a);
        law_empty_is_neutral(s.observe_all(a));
    } else {
        let front = b.drop_last();
        law_merge_is_the_sketch_of_all_values(s, a, front);
        law_observe_all_keeps_well_formed(e, front);
        law_merge_after_observe(s.observe_all(a), e.observe_all(front), b.last());
        assert((a + b).drop_last() =~= a + front);
        assert((a + b).last() == b.last());
    }
}

/// The estimate is the number of registers that a value has reached, while that is so small that
/// twice its square does not exceed the number of all registers.
pub proof fn law_few_reached_registers_are_counted_exactly(s: Sketch)
    requires
        s.wf(),
        2 * ((s.registers.len() - estimator::empty_registers(s.registers)) * (s.registers.len()
            - estimator::empty_registers(s.registers))) <= s.registers.len(),
    ensures
        estimator::cardinality(s.precision, s.registers) == s.registers.len()
            - estimator::empty_registers(s.registers),
{
    let m = s.registers.len();
    let k = (m - estimator::empty_registers(s.registers)) as nat;
    lemma2_to64();
    bits::lemma_pow2_monotonic(4, s.precision);
    bits::lemma_pow2_monotonic(s.precision, 16);
    estimator::lemma_empty_registers(s.registers);
    assert(4 * k <= m) by (nonlinear_arith)
        requires
            16 <= m,
            2 * (k * k) <= m,
    ;
    estimator::lemma_mostly_empty(s.precision, s.registers);
    logarithm::lemma_log_count_exact(m, k);
}

/// The empty sketch has an estimate of zero.
pub proof fn law_empty_sketch_estimates_zero(precision: nat)
    requires
        sketch::valid_precision(precision),
    ensures
        estimator::cardinality(precision, Sketch::empty(precision).registers) == 0,
{
    let s = Sketch::empty(precision);
    estimator::lemma_empty_registers(s.registers);
    law_few_reached_registers_are_counted_exactly(s);
}

/// Only the empty registers have an estimate of zero.
pub proof fn law_zero_estimate_means_empty(s: Sketch)
    requires
        s.wf(),
        estimator::cardinality(s.precision, s.registers) == 0,
    ensures
        s.registers == Sketch::empty(s.precision).registers,
{
    estimator::lemma_empty_registers(s.registers);
    if estimator::empty_registers(s.registers) < s.registers.len() {
        estimator::lemma_positive_estimate(s.precision, s.registers);
    }
    assert(s.registers =~= Sketch::empty(s.precision).registers);
}

/// A sketch that has taken in any value has a positive estimate.
pub proof fn law_any_value_shows(s: Sketch, hashes: Seq<u64>)
    requires
        s.wf(),
        hashes.len() > 0,
    ensures
        estimator::cardinality(s.precision, s.observe_all(hashes).registers) > 0,
{
    let after = s.observe_all(hashes);
    let i = sketch::register_index(hashes[0], s.precision) as int;
    sketch::lemma_register_index(hashes[0], s.precision);
    sketch::lemma_rank(hashes[0], s.precision);
    law_observe_all_keeps_well_formed(s, hashes);
    law_register_is_largest_rank(s, hashes, i);
    if estimator::cardinality(s.precision, after.registers) == 0 {
        law_zero_estimate_means_empty(after);
    }
}

/// A few values that are routed to registers of their own are counted exactly.
pub proof fn law_few_values_are_counted_exactly(precision: nat, hashes: Seq<u64>)
    requires
        sketch::valid_precision(precision),
        2 * (hashes.len() * hashes.len()) <= pow2(precision),
        forall|i: int, j: int|
            0 <= i < j < hashes.len() ==> sketch::register_index(#[trigger] hashes[i], precision)
                != sketch::register_index(#[trigger] hashes[j], precision),
    ensures
        estimator::cardinality(precision, Sketch::empty(precision).observe_all(hashes).registers)
            == hashes.len(),
{
    let s = Sketch::empty(precision).observe_all(hashes);
    law_observe_all_keeps_well_formed(Sketch::empty(precision), hashes);
    lemma_own_registers(precision, hashes);
    law_few_reached_registers_are_counted_exactly(s);
}

/// Values that are routed to registers of their own reach as many registers.
proof fn lemma_own_registers(precision: nat, hashes: Seq<u64>)
    requires
        sketch::valid_precision(precision),
        forall|i: int, j: int|
            0 <= i < j < hashes.len() ==> sketch::register_index(#[trigger] hashes[i], precision)
                != sketch::register_index(#[trigger] hashes[j], precision),
    ensures
        estimator::empty_registers(Sketch::empty(precision).observe_all(hashes).registers)
            + hashes.len() == pow2(precision),
    decreases hashes.len(),
{
    let e = Sketch::empty(precision);
    if hashes.len() == 0 {
        estimator::lemma_empty_registers(e.registers);
    } else {
        let front = hashes.drop_last();
        let last = hashes.len() - 1;
        let before = e.observe_all(front);
        let i = sketch::register_index(hashes.last(), precision) as int;
        assert forall|a: int, b: int| 0 <= a < b < front.len() implies sketch::register_index(
            #[trigger] front[a],
            precision,
        ) != sketch::register_index(#[trigger] front[b], precision) by {
            assert(front[a] == hashes[a] && front[b] == hashes[b]);
        }
        lemma_own_registers(precision, front);
        sketch::lemma_register_index(hashes.last(), precision);
        sketch::lemma_rank(hashes.last(), precision);
        law_observe_all_keeps_well_formed(e, front);
        law_register_is_largest_rank(e, front, i);
        // No earlier value was routed to the register of the last one.
        assert(before.registers[i] == 0) by {
            if before.registers[i] != 0 {
                let j = choose|j: int|
                    0 <= j < front.len() && sketch::register_index(
                        #[trigger] front[j],
                        precision,
                    ) == i && sketch::rank(front[j], precision) == before.registers[i];
                assert(front[j] == hashes[j]);
                assert(hashes[last] == hashes.last());
            }
        }
        estimator::lemma_empty_registers_update(
            before.registers,
            i,
            sketch::rank(hashes.last(), precision) as u8,
        );
    }
}

/// In the small range any integer that is closest to `m ln(m / empty)` is the estimate, or its
/// neighbour across a tie.
pub proof fn law_linear_count_is_the_closest_integer(s: Sketch, r: nat)
    requires
        s.wf(),
        estimator::small_range(s.precision, s.registers),
        logarithm::rounds_log(
            r,
            s.registers.len(),
            s.registers.len(),
            estimator::empty_registers(s.registers),
        ),
    ensures
        r != estimator::cardinality(s.precision, s.registers) ==> {
            let low = if r < estimator::cardinality(s.precision, s.registers) {
                r
            } else {
                estimator::cardinality(s.precision, s.registers)
            };
            &&& r == low || r == low + 1
            &&& estimator::cardinality(s.precision, s.registers) <= low + 1
            &&& logarithm::near_tie(
                low,
                s.registers.len(),
                s.registers.len(),
                estimator::empty_registers(s.registers),
            )
        },
{
    let m = s.registers.len();
    let e = estimator::empty_registers(s.registers);
    let c = estimator::cardinality(s.precision, s.registers);
    lemma2_to64();
    bits::lemma_pow2_monotonic(s.precision, 16);
    estimator::lemma_empty_registers(s.registers);
    logarithm::lemma_log_count(m, e);
    if r < c {
        logarithm::lemma_rounds_log_unique(r, c, m, m, e);
    }
    if c < r {
        logarithm::lemma_rounds_log_unique(c, r, m, m, e);
    }
}

/// The raw estimate, times the sum of `2^-register`, is the bias correction times the square of
/// the register count, up to one part in `2^34`: what the roundings of a long sum amount to.
pub proof fn law_raw_estimate_is_a_harmonic_mean(s: Sketch)
    requires
        s.wf(),
    ensures
        pow2(34) * rounding::distance(
            estimator::raw_estimate(s.precision, s.registers) * estimator::exact_harmonic_sum(
                s.registers,
            ),
            estimator::alpha(s.precision) * pow2(2 * s.precision + 306),
        ) <= estimator::alpha(s.precision) * pow2(2 * s.precision + 306),
{
    estimator::lemma_raw_estimate_close(s.precision, s.registers);
}

/// A value whose type gives it one digest counts once: when it comes again, after whatever else
/// was taken in since, neither the registers nor the estimate change.
pub proof fn law_added_value_counts_once<T: Hash + ?Sized>(
    s: Sketch,
    value: &T,
    first: Sketch,
    hashes: Seq<u64>,
    last: Sketch,
)
    requires
        s.wf(),
        hyperloglog::has_one_digest(value),
        hyperloglog::takes_in(s, value, first),
        hyperloglog::takes_in(first.observe_all(hashes), value, last),
    ensures
        last.registers == first.observe_all(hashes).registers,
        estimator::cardinality(s.precision, last.registers) == estimator::cardinality(
            s.precision,
            first.observe_all(hashes).registers,
        ),
{
    let a = choose|writes: Seq<Seq<u8>>|
        #[trigger] hyperloglog::may_write(value, writes) && first == s.observe(
            DefaultHasher::spec_finish(writes),
        );
    let b = choose|writes: Seq<Seq<u8>>|
        #[trigger] hyperloglog::may_write(value, writes) && last == first.observe_all(
            hashes,
        ).observe(DefaultHasher::spec_finish(writes));
    let digest = DefaultHasher::spec_finish(a);
    let all = seq![digest] + hashes;
    law_observe_all_joins(s, seq![digest], hashes);
    reveal_with_fuel(Sketch::observe_all, 2);
    assert(seq![digest].drop_last() =~= Seq::<u64>::empty());
    assert(all[0] == digest);
    law_duplicates_do_not_count(s, all, digest);
}

/// Values taken in one stretch after another are values taken in one stretch.
pub proof fn law_observe_all_joins(s: Sketch, a: Seq<u64>, b: Seq<u64>)
    ensures
        s.observe_all(a).observe_all(b) == s.observe_all(a + b),
    decreases b.len(),
{
    if b.len() == 0 {
        assert(a + b =~= a);
    } else {
        law_observe_all_joins(s, a, b.drop_last());
        assert((a + b).drop_last() =~= a + b.drop_last());
        assert((a + b).last() == b.last());
    }
}

/// The bias correction grows strictly with the number of registers, from 0.673 for the smallest
/// bank, and stays below its limit of 0.7213.
pub proof fn law_bias_correction_grows(p: nat, q: nat)
    requires
        sketch::valid_precision(p),
        sketch::valid_precision(q),
        p < q,
    ensures
        rounding::nearest_even(673 * pow2(53), 1000) <= estimator::alpha(p),
        estimator::alpha(p) < estimator::alpha(q),
        estimator::alpha(q) < rounding::nearest_even(7213 * pow2(53), 10000),
{
    estimator::lemma_alpha_values();
    estimator::lemma_decimal_constants();
}

} // verus!
