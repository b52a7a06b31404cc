//! Streaming distinct-count sketches, and a read-only view of streaming forests.
//!
//! - [`hyperloglog`]: the `HyperLogLog` sketch, which estimates how many distinct values a stream
//!   holds in a few kilobytes.
//! - [`sketch`]: the mathematical model that its contracts speak of.
//! - [`estimator`], [`logarithm`], [`rounding`], [`bits`]: what turns registers into a count,
//!   from the formula down to binary digits.
//! - [`exponential`]: that the logarithm is one, by the powers that enclose it.
//! - [`laws`]: what holds of sketches as a whole.
//! - [`effects`]: what each operation does, in terms of numbers and sequences alone.
//! - [`forest`]: the capacity and health view of a forest.
//! - [`error`]: why a request was refused, and in what words.

pub mod bits;
pub mod effects;
pub mod error;
pub mod estimator;
pub mod exponential;
pub mod forest;
pub mod hyperloglog;
pub mod laws;
pub mod logarithm;
pub mod rounding;
pub mod sketch;

pub use crate::error::{RcfError, RcfResult};
pub use crate::forest::{ForestSnapshot, ForestStats};
pub use crate::hyperloglog::{
    HyperLogLog, HyperLogLogShadow, DEFAULT_PRECISION, MAX_PRECISION, MIN_PRECISION,
};
