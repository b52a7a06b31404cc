# anomstream-core

Streaming building blocks whose behaviour is stated in contracts and proved by Verus.

`HyperLogLog` is a probabilistic distinct-count sketch: a bank of `2^p` one-byte registers
(`4 <= p <= 16`) from which the number of distinct values of a stream can be estimated. The papers
that `src/hyperloglog.rs` cites give it a standard error of about `1.04 / sqrt(2^p)` for uniform
hashes; that is a statistical result, and not among what is proved here. Sketches of the same
precision can be merged, so that shards or time windows can be counted apart and put together
later. `ForestSnapshot` is a read-only view of the capacity and health of a random cut forest.

## Layout

- `src/hyperloglog.rs`: the sketch.
- `src/sketch.rs`: its mathematical model, which the contracts speak of.
- `src/estimator.rs`, `src/logarithm.rs`, `src/rounding.rs`, `src/bits.rs`: the estimate. It is
  computed on integers. The raw estimate has the roundings that 64-bit floating-point arithmetic
  makes, step by step. Linear counting makes none on the way: it is the integer closest to
  `m ln(m / empty)`, from a fixed-point logarithm, up to `2^-33` at a tie.
- `src/laws.rs`: what holds of sketches as a whole, such as that a merge is the sketch of all
  values, that duplicates do not count, and that few values are counted exactly.
- `src/error.rs`: errors and their texts.
- `src/forest.rs`: the view of a forest.
- `app/`: serialisation with serde.
- `tests/`: the library at work.

## What is taken on trust

Two private functions of `src/hyperloglog.rs` call `Hash::hash`. One is for byte keys: what they
write to the hasher is given a name. The other is for values of any type: nothing is claimed of
what they write, but contracts speak of what it may leave in a fresh hasher. For a byte slice the
two are claimed to leave the same.
