//! `HyperLogLog`: probabilistic distinct-count (cardinality) estimator.
//!
//! A sketch of precision `p` is a bank of `m = 2^p` registers. Each value is hashed to 64 bits:
//! the top `p` bits choose a register, and the number of zeros that lead the other `64 - p` bits,
//! plus one, is the rank of the value. A register keeps the largest rank among the values routed
//! to it. The cardinality is recovered by a harmonic mean of `2^-register` with a bias
//! correction, and by linear counting while many registers are still empty.
//!
//! The bank takes one byte per register. The standard errors are those that the papers below
//! give for uniform hashes.
//!
//! | `p` | `m` | memory | standard error |
//! |---|---|---|---|
//! | 10 | 1 024  | 1 KiB   | 3.25 %  |
//! | 12 | 4 096  | 4 KiB   | 1.625 % |
//! | 14 | 16 384 | 16 KiB  | 0.81 %  |
//! | 16 | 65 536 | 64 KiB  | 0.40 %  |
//!
//! # References
//!
//! 1. P. Flajolet, E. Fusy, O. Gandouet, F. Meunier, "HyperLogLog: the analysis of a near-optimal
//!    cardinality estimation algorithm", AofA 2007.
//! 2. S. Heule, M. Nunkesser, A. Hall, "HyperLogLog in Practice: Algorithmic Engineering of a
//!    State of the Art Cardinality Estimation Algorithm", EDBT 2013.

use std::hash::{DefaultHasher, Hash, Hasher};

use vstd::arithmetic::div_mod::*;
use vstd::arithmetic::mul::*;
use vstd::arithmetic::power2::*;
use vstd::bits::*;
use vstd::prelude::*;
use vstd::std_specs::hash::*;

use crate::bits;
use crate::error;
use crate::error::{RcfError, RcfResult};
use crate::estimator;
use crate::logarithm;
use crate::sketch;
use crate::sketch::Sketch;

pub use crate::sketch::{DEFAULT_PRECISION, MAX_PRECISION, MIN_PRECISION};

verus! {

/// Probabilistic distinct-count sketch.
///
/// ```
/// use anomstream_core::HyperLogLog;
///
/// let mut hll = HyperLogLog::with_default_precision();
/// for ip in 0..10_000_u32 {
///     hll.add(&ip.to_le_bytes());
/// }
/// let est = hll.estimate();
/// assert!(est.abs_diff(10_000) < 500);
/// ```
#[derive(Debug)]
pub struct HyperLogLog {
    /// Number of index bits: there are `2^precision` registers.
    precision: u8,
    /// Per register, the largest rank of the hashes routed to it.
    registers: Vec<u8>,
    /// Number of values offered, for operators to watch. The estimate does not use it.
    total_added: u64,
}

impl View for HyperLogLog {
    type V = Sketch;

    closed spec fn view(&self) -> Sketch {
        Sketch {
            precision: self.precision as nat,
            registers: self.registers@,
            total_added: self.total_added as nat,
        }
    }
}

/// The raw parts of a sketch, as they travel: nothing ties them together until
/// [`HyperLogLog::try_from`] has checked them.
#[derive(Debug)]
pub struct HyperLogLogShadow {
    /// Number of index bits.
    pub precision: u8,
    /// One value per register.
    pub registers: Vec<u8>,
    /// Number of values offered.
    pub total_added: u64,
}

impl HyperLogLogShadow {
    /// What the parts spell.
    pub open spec fn sketch(self) -> Sketch {
        Sketch {
            precision: self.precision as nat,
            registers: self.registers@,
            total_added: self.total_added as nat,
        }
    }
}

/// The writes that `<[u8] as Hash>::hash` makes to a hasher for these bytes, on a target whose
/// `usize` has this many bits and whose byte order is little-endian or not.
pub uninterp spec fn slice_writes(
    bytes: Seq<u8>,
    usize_bits: u32,
    little_endian: bool,
) -> Seq<Seq<u8>>;

/// The writes that a byte key makes on the target at hand.
pub open spec fn key_writes(key: Seq<u8>) -> Seq<Seq<u8>> {
    slice_writes(key, usize::BITS, vstd::endian::endianness() is Little)
}

/// The digest that a fresh `DefaultHasher` gives of a byte key.
pub open spec fn key_digest(key: Seq<u8>) -> u64 {
    DefaultHasher::spec_finish(key_writes(key))
}

/// Whether a fresh `DefaultHasher` that was fed this value, once, by the `Hash` of its type may
/// then hold these writes.
pub closed spec fn may_write<T: Hash + ?Sized>(value: &T, writes: Seq<Seq<u8>>) -> bool {
    exists|fresh: DefaultHasher, fed: DefaultHasher|
        fresh@ == Seq::<Seq<u8>>::empty() && fed@ == writes && #[trigger] call_ensures(
            feed_value::<T>,
            (value, fresh),
            fed,
        )
}

/// Whether `after` is what `before` may become when it takes in this value: the digest that it
/// observes is one of a fresh hasher that was fed the value.
pub open spec fn takes_in<T: Hash + ?Sized>(before: Sketch, value: &T, after: Sketch) -> bool {
    exists|writes: Seq<Seq<u8>>|
        #[trigger] may_write(value, writes) && after == before.observe(
            DefaultHasher::spec_finish(writes),
        )
}

/// Whether the `Hash` of its type gives this value one digest, time after time.
pub open spec fn has_one_digest<T: Hash + ?Sized>(value: &T) -> bool {
    forall|first: Seq<Seq<u8>>, second: Seq<Seq<u8>>|
        #[trigger] may_write(value, first) && #[trigger] may_write(value, second)
            ==> DefaultHasher::spec_finish(first) == DefaultHasher::spec_finish(second)
}

/// Calls `<[u8] as Hash>::hash`, which feeds a byte key to the hasher. Claims that the hasher's
/// earlier writes stay, that those of the key come after them, and that on one kind of target
/// these depend on nothing but the bytes. Claims too that [`feed_value`], which makes the same
/// call where the value is a byte slice, leaves a hasher with the same writes. What the writes of
/// the key are is not said: the standard library leaves it open.
#[verifier::external_body]
fn feed_bytes(key: &[u8], state: DefaultHasher) -> (fed: DefaultHasher)
    ensures
        fed@ == state@ + slice_writes(
            key@,
            usize::BITS,
            vstd::endian::endianness() is Little,
        ),
        forall|before: DefaultHasher, after: DefaultHasher|
            before@ == state@ && #[trigger] call_ensures(
                feed_value::<[u8]>,
                (key, before),
                after,
            ) ==> after@ == fed@,
{
    let mut fed = state;
    key.hash(&mut fed);
    fed
}

/// Calls `Hash::hash` of the caller's type. Claims nothing of what the hasher holds afterwards:
/// an implementation may feed it anything, and not the same thing twice.
#[verifier::external_body]
pub(crate) fn feed_value<T: Hash + ?Sized>(
    value: &T,
    state: DefaultHasher,
) -> (fed: DefaultHasher) {
    let mut fed = state;
    value.hash(&mut fed);
    fed
}

/// The writes that a value may make are those that one feeding of it may leave in a fresh hasher:
/// all of them, and no others.
pub(crate) proof fn law_writes_are_those_of_one_feeding<T: Hash + ?Sized>(
    value: &T,
    writes: Seq<Seq<u8>>,
)
    ensures
        forall|fresh: DefaultHasher, fed: DefaultHasher|
            fresh@ == Seq::<Seq<u8>>::empty() && #[trigger] call_ensures(
                feed_value::<T>,
                (value, fresh),
                fed,
            ) ==> may_write(value, fed@),
        may_write(value, writes) ==> exists|fresh: DefaultHasher, fed: DefaultHasher|
            fresh@ == Seq::<Seq<u8>>::empty() && fed@ == writes && #[trigger] call_ensures(
                feed_value::<T>,
                (value, fresh),
                fed,
            ),
{
}

/// `2^exponent` as a machine word.
fn power_of_two(exponent: u8) -> (power: usize)
    requires
        exponent <= MAX_PRECISION,
    ensures
        power == pow2(exponent as nat),
{
    proof {
        lemma2_to64();
        bits::lemma_pow2_monotonic(exponent as nat, MAX_PRECISION as nat);
        lemma_usize_shl_is_mul(1usize, exponent as usize);
    }
    1usize << exponent as usize
}

/// The shifts that take a hash apart give the parts that the model names.
proof fn lemma_hash_parts(hash: u64, p: u64)
    requires
        sketch::valid_precision(p as nat),
    ensures
        hash >> (64 - p) as u64 == sketch::register_index(hash, p as nat),
        hash << p == sketch::hash_tail(hash, p as nat) * pow2(p as nat),
{
    let low = (64 - p) as u64;
    let top = hash >> low;
    lemma2_to64_rest();
    lemma_u64_shr_is_div(hash, low);
    lemma_fundamental_div_mod(hash as int, pow2(low as nat) as int);
    lemma_mul_is_commutative(top as int, pow2(low as nat) as int);
    let tail = (hash as nat % pow2(low as nat)) as u64;
    lemma_u64_shl_is_mul(top, low);
    assert(tail == hash - (top << low));
    assert(hash << p == tail << p) by (bit_vector)
        requires
            4 <= p <= 16,
            low == 64 - p,
            top == hash >> low,
            tail == hash - (top << low),
    ;
    lemma_pow2_pos(low as nat);
    lemma_mod_bound(hash as int, pow2(low as nat) as int);
    lemma_pow2_adds(low as nat, p as nat);
    lemma_mul_strict_inequality(tail as int, pow2(low as nat) as int, pow2(p as nat) as int);
    lemma_u64_shl_is_mul(tail, p);
}

impl HyperLogLog {
    #[verifier::type_invariant]
    spec fn inv(self) -> bool {
        self@.wf()
    }

    /// Builds a sketch with a precision of the caller's choice.
    ///
    /// Refuses one outside `MIN_PRECISION..=MAX_PRECISION`.
    pub fn new(precision: u8) -> (result: RcfResult<HyperLogLog>)
        ensures
            match result {
                Ok(hll) => sketch::valid_precision(precision as nat) && hll@ == Sketch::empty(
                    precision as nat,
                ) && hll@.wf(),
                Err(RcfError::InvalidConfig(text)) => !sketch::valid_precision(precision as nat)
                    && text@ == error::precision_text(precision as nat),
            },
            result is Ok <==> 4 <= precision <= 16,
            result matches Ok(hll) ==> {
                &&& hll@.precision == precision
                &&& hll@.registers.len() == pow2(precision as nat)
                &&& forall|i: int| 0 <= i < hll@.registers.len() ==> hll@.registers[i] == 0
                &&& hll@.total_added == 0
            },
    {
        if precision < MIN_PRECISION || precision > MAX_PRECISION {
            return Err(error::invalid_precision(precision));
        }
        let m: usize = power_of_two(precision);
        let registers: Vec<u8> = vec![0u8; m];
        assert(registers@ =~= Sketch::empty(precision as nat).registers);
        Ok(HyperLogLog { precision, registers, total_added: 0 })
    }

    /// Default sketch: 4 096 registers, about 1.625 % standard error, 4 KiB of memory.
    #[must_use]
    pub fn with_default_precision() -> (hll: HyperLogLog)
        ensures
            hll@ == Sketch::empty(DEFAULT_PRECISION as nat),
            hll@.wf(),
            hll@.precision == 12,
            hll@.registers.len() == 4096,
            forall|i: int| 0 <= i < hll@.registers.len() ==> hll@.registers[i] == 0,
            hll@.total_added == 0,
    {
        proof {
            lemma2_to64();
        }
        Self::new(DEFAULT_PRECISION).expect("DEFAULT_PRECISION is in range")
    }

    /// Register count: two to the power of the precision.
    #[must_use]
    pub fn register_count(&self) -> (count: usize)
        ensures
            count == pow2(self@.precision),
    {
        proof {
            use_type_invariant(self);
        }
        power_of_two(self.precision)
    }

    /// Precision bit count.
    #[must_use]
    pub fn precision(&self) -> (bits: u8)
        ensures
            bits == self@.precision,
            sketch::valid_precision(bits as nat),
    {
        proof {
            use_type_invariant(self);
        }
        self.precision
    }

    /// Number of values offered so far.
    #[must_use]
    pub fn total_added(&self) -> (count: u64)
        ensures
            count == self@.total_added,
    {
        self.total_added
    }

    /// Memory footprint of the register bank, in bytes.
    #[must_use]
    pub fn memory_bytes(&self) -> (bytes: usize)
        ensures
            bytes == self@.registers.len(),
            bytes == pow2(self@.precision),
    {
        proof {
            use_type_invariant(self);
        }
        self.registers.len()
    }

    /// Takes in a value of any type that can be hashed, through a fresh `DefaultHasher`, so that
    /// the ranks are well spread whatever the type's own `Hash` does. What the type feeds to the
    /// hasher is up to the type: the value counts as the digest of these writes.
    pub fn add<T: Hash + ?Sized>(&mut self, value: &T)
        ensures
            takes_in(old(self)@, value, final(self)@),
            exists|writes: Seq<Seq<u8>>|
                #[trigger] may_write(value, writes) && final(self)@ == old(self)@.observe(
                    DefaultHasher::spec_finish(writes),
                ),
            final(self)@.wf(),
    {
        let feed = feed_value::<T>;
        let hasher: DefaultHasher = feed(value, DefaultHasher::new());
        assert(may_write(value, hasher@));
        self.add_hash(hasher.finish());
    }

    /// Takes in a raw byte key, through a fresh `DefaultHasher`. A key has one digest, and counts
    /// as the same value whether it comes this way or through [`HyperLogLog::add`].
    pub fn add_bytes(&mut self, key: &[u8])
        ensures
            final(self)@ == old(self)@.observe(key_digest(key@)),
            final(self)@ == old(self)@.observe(
                DefaultHasher::spec_finish(
                    slice_writes(key@, usize::BITS, vstd::endian::endianness() is Little),
                ),
            ),
            final(self)@.wf(),
            forall|writes: Seq<Seq<u8>>| #[trigger]
                may_write(key, writes) ==> writes == slice_writes(
                    key@,
                    usize::BITS,
                    vstd::endian::endianness() is Little,
                ),
            has_one_digest(key),
            forall|before: Sketch, after: Sketch| #[trigger]
                takes_in(before, key, after) ==> after == before.observe(key_digest(key@)),
    {
        let hasher: DefaultHasher = feed_bytes(key, DefaultHasher::new());
        assert(hasher@ =~= key_writes(key@));
        self.add_hash(hasher.finish());
    }

    /// Takes in a hash that the caller computed, with a hasher of the caller's choice. The
    /// estimate is as good as its bits are uniform.
    pub fn add_hash(&mut self, hash: u64)
        ensures
            final(self)@ == old(self)@.observe(hash),
            final(self)@.wf(),
    {
        proof {
            use_type_invariant(&*self);
            sketch::lemma_register_index(hash, self.precision as nat);
            sketch::lemma_rank(hash, self.precision as nat);
            lemma_hash_parts(hash, self.precision as u64);
            lemma2_to64();
            bits::lemma_pow2_monotonic(self.precision as nat, MAX_PRECISION as nat);
        }
        self.total_added = self.total_added.saturating_add(1);
        let p: u8 = self.precision;
        let index: usize = (hash >> (64 - p as u64)) as usize;
        let tail: u64 = hash << p as u64;
        let rho: u8 = if tail == 0 {
            64 - p + 1
        } else {
            tail.leading_zeros() as u8 + 1
        };
        proof {
            let t = sketch::hash_tail(hash, p as nat);
            lemma_pow2_pos(p as nat);
            if t == 0 {
                lemma_mul_by_zero_is_zero(pow2(p as nat) as int);
                assert(bits::bit_length(t) == 0);
            } else {
                lemma_mul_strictly_positive(t as int, pow2(p as nat) as int);
                bits::lemma_bit_length_shift(t, p as nat);
                bits::lemma_leading_zeros(tail);
            }
            assert(rho == sketch::rank(hash, p as nat));
        }
        if rho > self.registers[index] {
            self.registers[index] = rho;
        }
        assert(self@ =~= old(self)@.observe(hash));
    }

    /// Cardinality estimate: number of distinct values taken in.
    #[must_use]
    pub fn estimate(&self) -> (count: u64)
        ensures
            count == estimator::cardinality(self@.precision, self@.registers),
            estimator::small_range(self@.precision, self@.registers) ==> logarithm::rounds_log(
                count as nat,
                self@.registers.len(),
                self@.registers.len(),
                estimator::empty_registers(self@.registers),
            ),
    {
        proof {
            use_type_invariant(self);
        }
        estimator::estimate(self.precision, &self.registers)
    }

    /// Folds `other` in: each register takes the larger of the two values. So sketches of shards
    /// or time windows can be put together.
    ///
    /// Refuses a sketch of another precision, and then changes nothing.
    pub fn merge(&mut self, other: &HyperLogLog) -> (result: RcfResult<()>)
        ensures
            match result {
                Ok(()) => old(self)@.precision == other@.precision && final(self)@ == old(
                    self,
                )@.merge(other@),
                Err(RcfError::InvalidConfig(text)) => old(self)@.precision != other@.precision
                    && final(self)@ == old(self)@ && text@ == error::mismatch_text(
                    old(self)@.precision,
                    other@.precision,
                ),
            },
            result is Ok <==> old(self)@.precision == other@.precision,
            final(self)@.precision == old(self)@.precision,
            final(self)@.registers.len() == old(self)@.registers.len(),
            result is Ok ==> forall|i: int|
                0 <= i < old(self)@.registers.len() ==> final(self)@.registers[i] == if old(
                    self,
                )@.registers[i] < #[trigger] other@.registers[i] {
                    other@.registers[i]
                } else {
                    old(self)@.registers[i]
                },
            final(self)@.wf(),
    {
        proof {
            use_type_invariant(&*self);
            use_type_invariant(other);
        }
        if self.precision != other.precision {
            return Err(error::precision_mismatch(self.precision, other.precision));
        }
        let mut i: usize = 0;
        while i < self.registers.len()
            invariant
                self@.wf(),
                i <= self.registers.len(),
                self.registers.len() == old(self).registers.len(),
                self.registers.len() == other.registers.len(),
                self.precision == old(self).precision,
                self.total_added == old(self).total_added,
                forall|j: int|
                    0 <= j < i ==> self.registers@[j] == sketch::register_max(
                        old(self).registers@[j],
                        #[trigger] other.registers@[j],
                    ),
                forall|j: int|
                    i <= j < self.registers.len() ==> #[trigger] self.registers@[j] == old(
                        self,
                    ).registers@[j],
            decreases self.registers.len() - i,
        {
            let other_r: u8 = other.registers[i];
            if other_r > self.registers[i] {
                self.registers[i] = other_r;
            }
            i += 1;
        }
        self.total_added = self.total_added.saturating_add(other.total_added);
        assert(self@ =~= old(self)@.merge(other@));
        Ok(())
    }

    /// Zeroes every register and the counter, in place.
    pub fn reset(&mut self)
        ensures
            final(self)@ == Sketch::empty(old(self)@.precision),
            final(self)@.wf(),
            final(self)@.precision == old(self)@.precision,
            final(self)@.registers.len() == old(self)@.registers.len(),
            forall|i: int|
                0 <= i < final(self)@.registers.len() ==> final(self)@.registers[i] == 0,
            final(self)@.total_added == 0,
    {
        proof {
            use_type_invariant(&*self);
        }
        let mut i: usize = 0;
        while i < self.registers.len()
            invariant
                self@.wf(),
                i <= self.registers.len(),
                self.precision == old(self).precision,
                forall|j: int| 0 <= j < i ==> #[trigger] self.registers@[j] == 0,
            decreases self.registers.len() - i,
        {
            self.registers[i] = 0;
            i += 1;
        }
        self.total_added = 0;
        assert(self@ =~= Sketch::empty(old(self)@.precision));
    }

    /// The parts of the sketch, ready to travel.
    #[must_use]
    pub fn to_shadow(&self) -> (shadow: HyperLogLogShadow)
        ensures
            shadow.sketch() == self@,
            shadow.sketch().wf(),
            shadow.precision == self@.precision,
            shadow.registers@ == self@.registers,
            shadow.total_added == self@.total_added,
    {
        proof {
            use_type_invariant(self);
        }
        let registers: Vec<u8> = self.registers.clone();
        assert(registers@ =~= self.registers@);
        HyperLogLogShadow { precision: self.precision, registers, total_added: self.total_added }
    }
}

impl TryFrom<HyperLogLogShadow> for HyperLogLog {
    type Error = RcfError;

    /// Makes a live sketch of parts that came from elsewhere.
    ///
    /// Refuses a precision outside `MIN_PRECISION..=MAX_PRECISION`, then a register bank whose
    /// length is not two to the power of the precision.
    fn try_from(raw: HyperLogLogShadow) -> (result: Result<HyperLogLog, RcfError>)
        ensures
            match result {
                Ok(hll) => raw.sketch().wf() && hll@ == raw.sketch(),
                Err(RcfError::InvalidConfig(text)) => if !sketch::valid_precision(
                    raw.precision as nat,
                ) {
                    text@ == error::precision_text(raw.precision as nat)
                } else {
                    raw.registers@.len() != pow2(raw.precision as nat) && text@
                        == error::length_text(
                        raw.registers@.len(),
                        pow2(raw.precision as nat),
                        raw.precision as nat,
                    )
                },
            },
            result is Ok <==> 4 <= raw.precision <= 16 && raw.registers@.len() == pow2(
                raw.precision as nat,
            ),
            result matches Ok(hll) ==> {
                &&& hll@.precision == raw.precision
                &&& hll@.registers == raw.registers@
                &&& hll@.total_added == raw.total_added
            },
    {
        if raw.precision < MIN_PRECISION || raw.precision > MAX_PRECISION {
            return Err(error::invalid_precision(raw.precision));
        }
        let expected: usize = power_of_two(raw.precision);
        if raw.registers.len() != expected {
            return Err(error::invalid_length(raw.registers.len(), expected, raw.precision));
        }
        Ok(
            HyperLogLog {
                precision: raw.precision,
                registers: raw.registers,
                total_added: raw.total_added,
            },
        )
    }
}

impl vstd::std_specs::convert::TryFromSpecImpl<HyperLogLogShadow> for HyperLogLog {
    open spec fn obeys_try_from_spec() -> bool {
        false
    }

    open spec fn try_from_spec(v: HyperLogLogShadow) -> Result<HyperLogLog, RcfError> {
        arbitrary()
    }
}

impl Clone for HyperLogLog {
    fn clone(&self) -> (copy: HyperLogLog)
        ensures
            copy@ == self@,
            copy@.wf(),
    {
        proof {
            use_type_invariant(self);
        }
        let registers: Vec<u8> = self.registers.clone();
        assert(registers@ =~= self.registers@);
        HyperLogLog { precision: self.precision, registers, total_added: self.total_added }
    }
}

} // verus!
