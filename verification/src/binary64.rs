//! IEEE 754 binary64 values, held by their bit patterns.

use vstd::prelude::*;
use vstd::arithmetic::power2::pow2;
use crate::rounding::{EXPONENT_UNIT, INFINITY_BITS};

verus! {

/// The sign bit of a bit pattern.
pub const SIGN_BIT: u64 = 0x8000_0000_0000_0000;

/// The magnitude bits of the NaN that every invalid operation returns.
pub const QUIET_NAN_BITS: u64 = 0x7ff8_0000_0000_0000;

/// The bit pattern of `1.0`.
pub const ONE_BITS: u64 = 0x3ff0_0000_0000_0000;

/// A binary64 value. Every bit pattern is a value: a sign, and a magnitude
/// pattern that is finite below [`INFINITY_BITS`], infinite at it and a NaN
/// above it.
#[derive(Clone, Copy, Debug)]
pub struct Binary64 {
    pub bits: u64,
}

impl Binary64 {
    /// Whether the sign bit is set (zeros, infinities and NaNs included).
    pub open spec fn spec_is_sign_negative(self) -> bool {
        self.bits >= SIGN_BIT
    }

    /// The bit pattern without its sign bit.
    pub open spec fn magnitude_bits(self) -> nat {
        if self.bits >= SIGN_BIT {
            (self.bits - SIGN_BIT) as nat
        } else {
            self.bits as nat
        }
    }

    pub open spec fn spec_is_nan(self) -> bool {
        self.magnitude_bits() > INFINITY_BITS
    }

    pub open spec fn spec_is_infinite(self) -> bool {
        self.magnitude_bits() == INFINITY_BITS
    }

    pub open spec fn spec_is_finite(self) -> bool {
        self.magnitude_bits() < INFINITY_BITS
    }

    /// Positive or negative zero.
    pub open spec fn spec_is_zero(self) -> bool {
        self.magnitude_bits() == 0
    }

    /// The significand as a whole number below `2^53`, with its leading one
    /// where the value is normal.
    pub open spec fn significand(self) -> nat {
        let m = self.magnitude_bits();
        if m < EXPONENT_UNIT {
            m
        } else {
            (EXPONENT_UNIT + m % (EXPONENT_UNIT as nat)) as nat
        }
    }

    /// The power of two that the significand is scaled by, counted from the
    /// quantum `2^-1074`.
    pub open spec fn scale(self) -> nat {
        let m = self.magnitude_bits();
        if m < EXPONENT_UNIT {
            0
        } else {
            (m / (EXPONENT_UNIT as nat) - 1) as nat
        }
    }

    /// The absolute value of a finite value, in quanta of `2^-1074`.
    pub open spec fn magnitude(self) -> nat {
        self.significand() * pow2(self.scale())
    }

    /// A finite value in quanta of `2^-1074`. Both zeros have the value 0.
    pub open spec fn value(self) -> int {
        if self.spec_is_sign_negative() {
            -(self.magnitude() as int)
        } else {
            self.magnitude() as int
        }
    }

    /// The value with the given sign and magnitude pattern.
    pub open spec fn from_parts(negative: bool, magnitude_bits: nat) -> Binary64 {
        Binary64 {
            bits: if negative {
                (SIGN_BIT + magnitude_bits) as u64
            } else {
                magnitude_bits as u64
            },
        }
    }

    /// The NaN that stands for every invalid operation.
    pub open spec fn nan() -> Binary64 {
        Binary64 { bits: QUIET_NAN_BITS }
    }

    /// The value with the given bit pattern.
    pub fn from_bits(bits: u64) -> (r: Binary64)
        ensures
            r.bits == bits,
    {
        Binary64 { bits }
    }

    /// The bit pattern of the value.
    pub fn to_bits(self) -> (bits: u64)
        ensures
            bits == self.bits,
    {
        self.bits
    }

    #[verifier::when_used_as_spec(spec_is_sign_negative)]
    pub fn is_sign_negative(self) -> (r: bool)
        ensures
            r == self.spec_is_sign_negative(),
    {
        self.bits >= SIGN_BIT
    }

    /// The magnitude pattern as a machine integer.
    pub fn abs_bits(self) -> (m: u64)
        ensures
            m == self.magnitude_bits(),
            m < SIGN_BIT,
    {
        if self.bits >= SIGN_BIT {
            self.bits - SIGN_BIT
        } else {
            self.bits
        }
    }

    #[verifier::when_used_as_spec(spec_is_nan)]
    pub fn is_nan(self) -> (r: bool)
        ensures
            r == self.spec_is_nan(),
    {
        self.abs_bits() > INFINITY_BITS
    }

    #[verifier::when_used_as_spec(spec_is_infinite)]
    pub fn is_infinite(self) -> (r: bool)
        ensures
            r == self.spec_is_infinite(),
    {
        self.abs_bits() == INFINITY_BITS
    }

    #[verifier::when_used_as_spec(spec_is_finite)]
    pub fn is_finite(self) -> (r: bool)
        ensures
            r == self.spec_is_finite(),
    {
        self.abs_bits() < INFINITY_BITS
    }

    #[verifier::when_used_as_spec(spec_is_zero)]
    pub fn is_zero(self) -> (r: bool)
        ensures
            r == self.spec_is_zero(),
    {
        self.abs_bits() == 0
    }

    /// Puts a sign and a magnitude pattern together.
    pub fn compose(negative: bool, magnitude_bits: u64) -> (r: Binary64)
        requires
            magnitude_bits < SIGN_BIT,
        ensures
            r == Binary64::from_parts(negative, magnitude_bits as nat),
            r.spec_is_sign_negative() == negative,
            r.magnitude_bits() == magnitude_bits,
    {
        if negative {
            Binary64 { bits: SIGN_BIT + magnitude_bits }
        } else {
            Binary64 { bits: magnitude_bits }
        }
    }

    /// Splits a value into significand and scale.
    pub fn decode(self) -> (r: (u64, u32))
        ensures
            r.0 == self.significand(),
            r.1 == self.scale(),
            r.0 < 0x20_0000_0000_0000,
            r.1 <= 2047,
            r.1 > 0 ==> r.0 >= EXPONENT_UNIT,
            self.magnitude_bits() == r.1 * EXPONENT_UNIT + r.0,
            self.spec_is_finite() ==> r.1 <= 2045,
            (r.0 == 0) == self.spec_is_zero(),
    {
        let m = self.abs_bits();
        if m < EXPONENT_UNIT {
            (m, 0)
        } else {
            (EXPONENT_UNIT + m % EXPONENT_UNIT, (m / EXPONENT_UNIT - 1) as u32)
        }
    }
}

} // verus!
