//! A second-order recursive filter section (biquad) in Direct Form 2
//! Transposed, over IEEE 754 binary64 samples.
//!
//! Samples, coefficients and state registers are binary64 values held by
//! their bit patterns. The arithmetic on them is carried out in integers and
//! proved to round the exact result to the nearest representable value, ties
//! to even, so every contract of the filter is stated over exact mathematics.

pub mod digits;
pub mod rounding;
pub mod binary64;
pub mod arithmetic;
pub mod accuracy;
pub mod filter;
pub mod theorems;

pub use crate::binary64::Binary64;
pub use crate::filter::{Biquad, BiquadCoefficients, FilterState};
