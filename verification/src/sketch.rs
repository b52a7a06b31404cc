//! The mathematical model of a sketch: what it holds and how each operation changes it.

use vstd::arithmetic::div_mod::*;
use vstd::arithmetic::power2::*;
use vstd::prelude::*;

use crate::bits;

verus! {

/// Minimum precision bit count: 16 registers.
pub const MIN_PRECISION: u8 = 4;

/// Maximum precision bit count: 65 536 registers.
pub const MAX_PRECISION: u8 = 16;

/// Default precision: 4 096 registers, about 1.625 % standard error, 4 KiB of memory.
pub const DEFAULT_PRECISION: u8 = 12;

/// Whether a sketch may have this many index bits.
pub open spec fn valid_precision(precision: nat) -> bool {
    MIN_PRECISION <= precision <= MAX_PRECISION
}

/// The register that a hash is routed to: the number that its top `precision` bits spell.
pub open spec fn register_index(hash: u64, precision: nat) -> nat {
    hash as nat / pow2((64 - precision) as nat)
}

/// The number that the bits of a hash below its register index spell.
pub open spec fn hash_tail(hash: u64, precision: nat) -> nat {
    hash as nat % pow2((64 - precision) as nat)
}

/// One more than the number of zeros that lead the `64 - precision` bits of the tail.
pub open spec fn rank(hash: u64, precision: nat) -> nat {
    (64 - precision - bits::bit_length(hash_tail(hash, precision)) + 1) as nat
}

/// The larger of two register values.
pub open spec fn register_max(a: u8, b: u8) -> u8 {
    if a < b {
        b
    } else {
        a
    }
}

/// A counter that stays at `u64::MAX` once it gets there.
pub open spec fn saturated(count: nat) -> nat {
    if count > u64::MAX {
        u64::MAX as nat
    } else {
        count
    }
}

/// What a sketch holds.
#[verifier::ext_equal]
pub struct Sketch {
    /// Number of index bits.
    pub precision: nat,
    /// One value per register.
    pub registers: Seq<u8>,
    /// Number of values offered so far.
    pub total_added: nat,
}

/// Every hash is routed to one of the registers.
pub proof fn lemma_register_index(hash: u64, precision: nat)
    requires
        valid_precision(precision),
    ensures
        register_index(hash, precision) < pow2(precision),
{
    let low = (64 - precision) as nat;
    lemma2_to64_rest();
    lemma_pow2_pos(low);
    lemma_pow2_adds(low, precision);
    lemma_multiply_divide_lt(hash as int, pow2(low) as int, pow2(precision) as int);
}

/// A rank is at least one, and at most one more than the length of the tail.
pub proof fn lemma_rank(hash: u64, precision: nat)
    requires
        valid_precision(precision),
    ensures
        1 <= rank(hash, precision) <= 65 - precision,
{
    let low = (64 - precision) as nat;
    lemma_pow2_pos(low);
    lemma_mod_bound(hash as int, pow2(low) as int);
    bits::lemma_bit_length_at_most(hash_tail(hash, precision), low);
}

impl Sketch {
    /// The precision is one of those allowed, there is one register per index that so many bits
    /// can spell, and the counter fits its machine word.
    pub open spec fn wf(self) -> bool {
        &&& valid_precision(self.precision)
        &&& self.registers.len() == pow2(self.precision)
        &&& self.total_added <= u64::MAX
    }

    /// The sketch of no value at all.
    pub open spec fn empty(precision: nat) -> Sketch {
        Sketch {
            precision,
            registers: Seq::new(pow2(precision), |i: int| 0u8),
            total_added: 0,
        }
    }

    /// The sketch after one more value, known by its hash.
    pub open spec fn observe(self, hash: u64) -> Sketch {
        let index = register_index(hash, self.precision) as int;
        Sketch {
            precision: self.precision,
            registers: self.registers.update(
                index,
                register_max(self.registers[index], rank(hash, self.precision) as u8),
            ),
            total_added: saturated(self.total_added + 1),
        }
    }

    /// The sketch after the values of `hashes`, first to last.
    pub open spec fn observe_all(self, hashes: Seq<u64>) -> Sketch
        decreases hashes.len(),
    {
        if hashes.len() == 0 {
            self
        } else {
            self.observe_all(hashes.drop_last()).observe(hashes.last())
        }
    }

    /// The sketch with another one of the same precision folded in.
    pub open spec fn merge(self, other: Sketch) -> Sketch {
        Sketch {
            precision: self.precision,
            registers: Seq::new(
                self.registers.len(),
                |i: int| register_max(self.registers[i], other.registers[i]),
            ),
            total_added: saturated(self.total_added + other.total_added),
        }
    }
}

} // verus!
