//! Addition, subtraction and multiplication of binary64 values: the exact
//! result, rounded to the nearest value, ties to even.

use vstd::prelude::*;
use vstd::arithmetic::power2::{pow2, lemma_pow2_pos, lemma_pow2_adds, lemma_pow2_unfold};
use vstd::arithmetic::div_mod::lemma_fundamental_div_mod_converse;
use crate::binary64::{Binary64, ONE_BITS, QUIET_NAN_BITS};
use crate::digits::{
    bit_length,
    lemma_bit_length_bounds,
    lemma_bit_length_unique,
    lemma_pow2_monotonic,
    lemma_pow2_values,
    pow2_u128,
};
use crate::rounding::{
    nearest_bits,
    round_to_bits,
    lemma_nearest_bits_scale,
    INFINITY_BITS,
};

verus! {

/// Zero with the given sign.
pub open spec fn zero(negative: bool) -> Binary64 {
    Binary64::from_parts(negative, 0)
}

/// The value with the opposite sign. A NaN stays a NaN.
pub open spec fn negation(a: Binary64) -> Binary64 {
    Binary64::from_parts(!a.spec_is_sign_negative(), a.magnitude_bits())
}

/// The sum of two values.
///
/// A NaN operand, or two infinities of opposite sign, give the NaN; an
/// infinity otherwise wins. Two finite values give their exact sum rounded
/// to nearest; an exact zero is negative only where both operands are.
pub open spec fn sum(a: Binary64, b: Binary64) -> Binary64 {
    if a.spec_is_nan() || b.spec_is_nan() {
        Binary64::nan()
    } else if a.spec_is_infinite() && b.spec_is_infinite() {
        if a.spec_is_sign_negative() == b.spec_is_sign_negative() {
            a
        } else {
            Binary64::nan()
        }
    } else if a.spec_is_infinite() {
        a
    } else if b.spec_is_infinite() {
        b
    } else {
        let s = a.value() + b.value();
        if s == 0 {
            zero(a.spec_is_sign_negative() && b.spec_is_sign_negative())
        } else if s > 0 {
            Binary64::from_parts(false, nearest_bits(s as nat, 0))
        } else {
            Binary64::from_parts(true, nearest_bits((-s) as nat, 0))
        }
    }
}

/// The difference of two values: the sum with the negated subtrahend.
pub open spec fn difference(a: Binary64, b: Binary64) -> Binary64 {
    sum(a, negation(b))
}

/// The product of two values.
///
/// A NaN operand, or zero times infinity, gives the NaN. Otherwise the sign
/// is negative where exactly one operand's is; an infinite operand gives
/// infinity, and two finite ones their exact product rounded to nearest.
pub open spec fn product(a: Binary64, b: Binary64) -> Binary64 {
    let negative = a.spec_is_sign_negative() != b.spec_is_sign_negative();
    if a.spec_is_nan() || b.spec_is_nan() {
        Binary64::nan()
    } else if a.spec_is_infinite() || b.spec_is_infinite() {
        if a.spec_is_zero() || b.spec_is_zero() {
            Binary64::nan()
        } else {
            Binary64::from_parts(negative, INFINITY_BITS as nat)
        }
    } else {
        Binary64::from_parts(negative, nearest_bits(a.magnitude() * b.magnitude(), -1074))
    }
}

/// The sum of two finite values whose magnitudes are `a * 2^j` and
/// `b * 2^j` quanta.
pub open spec fn aligned_sum(a_negative: bool, a: nat, b_negative: bool, b: nat, j: nat) -> Binary64 {
    if a_negative == b_negative {
        if a + b == 0 {
            zero(a_negative)
        } else {
            Binary64::from_parts(a_negative, nearest_bits(a + b, j as int))
        }
    } else if a == b {
        zero(false)
    } else if a > b {
        Binary64::from_parts(a_negative, nearest_bits((a - b) as nat, j as int))
    } else {
        Binary64::from_parts(b_negative, nearest_bits((b - a) as nat, j as int))
    }
}

/// Addition does not depend on the order of its operands.
pub proof fn lemma_sum_commutes(a: Binary64, b: Binary64)
    ensures
        sum(a, b) == sum(b, a),
{
}

/// Two finite values brought to a common scale add as whole numbers.
pub proof fn lemma_sum_aligned(x: Binary64, y: Binary64, a: nat, b: nat, j: nat)
    requires
        x.spec_is_finite(),
        y.spec_is_finite(),
        x.magnitude() == a * pow2(j),
        y.magnitude() == b * pow2(j),
    ensures
        sum(x, y) == aligned_sum(x.spec_is_sign_negative(), a, y.spec_is_sign_negative(), b, j),
{
    let p = pow2(j) as int;
    lemma_pow2_pos(j);
    let ai = a as int;
    let bi = b as int;
    assert(ai * p >= 0 && bi * p >= 0) by (nonlinear_arith)
        requires
            ai >= 0,
            bi >= 0,
            p > 0,
    ;
    assert((ai + bi) * p == ai * p + bi * p) by (nonlinear_arith);
    assert((ai - bi) * p == ai * p - bi * p) by (nonlinear_arith);
    assert((bi - ai) * p == bi * p - ai * p) by (nonlinear_arith);
    assert(ai + bi > 0 ==> (ai + bi) * p > 0) by (nonlinear_arith)
        requires
            p > 0,
    ;
    assert(ai > bi ==> (ai - bi) * p > 0) by (nonlinear_arith)
        requires
            p > 0,
    ;
    assert(bi > ai ==> (bi - ai) * p > 0) by (nonlinear_arith)
        requires
            p > 0,
    ;
    lemma_nearest_bits_scale(a + b, j, j as int);
    lemma_nearest_bits_scale((a - b) as nat, j, j as int);
    lemma_nearest_bits_scale((b - a) as nat, j, j as int);
}

/// A value of at least `2^52 * 2^d` with `d >= 56` absorbs one below `2^53`:
/// adding or subtracting the small one rounds back to the large one.
pub proof fn lemma_nearest_bits_absorbs(sig: nat, small: nat, d: nat, e: nat, subtract: bool)
    requires
        pow2(52) <= sig < pow2(53),
        small < pow2(53),
        d >= 56,
        d + e <= 2045,
    ensures
        sig * pow2(d) > small,
        nearest_bits(
            if subtract {
                (sig * pow2(d) - small) as nat
            } else {
                sig * pow2(d) + small
            },
            e as int,
        ) == (d + e) * pow2(52) + sig,
{
    lemma_pow2_values();
    lemma_pow2_pos(d);
    lemma_pow2_monotonic(56, d);
    let dd = pow2(d) as int;
    let s = sig as int;
    let w = small as int;
    let lo = pow2(52) as int;
    let hi = pow2(53) as int;
    lemma_pow2_adds(52, d);
    lemma_pow2_adds(53, d);
    assert(lo * dd <= s * dd && s * dd <= (hi - 1) * dd && (hi - 1) * dd == hi * dd - dd
        && (s - 1) * dd == s * dd - dd && lo * dd >= dd) by (nonlinear_arith)
        requires
            lo <= s < hi,
            dd > 0,
            lo >= 1,
    ;
    assert((d + e) * pow2(52) <= 2045 * pow2(52)) by (nonlinear_arith)
        requires
            d + e <= 2045,
    ;
    if !subtract || small == 0 {
        let m = s * dd + w;
        lemma_bit_length_unique(m as nat, 53 + d);
        lemma_fundamental_div_mod_converse(m, dd, s, w);
    } else if sig > pow2(52) {
        let m = s * dd - w;
        assert((lo + 1) * dd <= s * dd && (lo + 1) * dd == lo * dd + dd) by (nonlinear_arith)
            requires
                lo + 1 <= s,
                dd > 0,
        ;
        lemma_bit_length_unique(m as nat, 53 + d);
        lemma_fundamental_div_mod_converse(m, dd, s - 1, dd - w);
    } else {
        let h = pow2((d - 1) as nat) as int;
        lemma_pow2_unfold(d);
        lemma_pow2_monotonic(55, (d - 1) as nat);
        lemma_pow2_adds(52, (d - 1) as nat);
        lemma_pow2_adds(53, (d - 1) as nat);
        let m = s * dd - w;
        assert(s * dd == hi * h && (hi - 1) * h == hi * h - h && lo * h + lo * h == hi * h
            && lo * h >= h) by (nonlinear_arith)
            requires
                s == lo,
                hi == 2 * lo,
                dd == 2 * h,
                lo >= 1,
                h > 0,
        ;
        lemma_bit_length_unique(m as nat, 52 + d);
        lemma_fundamental_div_mod_converse(m, h, hi - 1, h - w);
    }
}

/// Adding a finite value more than 60 binary places below another finite
/// value leaves the larger one unchanged.
pub proof fn lemma_sum_absorbs(x: Binary64, y: Binary64)
    requires
        x.spec_is_finite(),
        y.spec_is_finite(),
        x.scale() > y.scale() + 60,
    ensures
        sum(x, y) == x,
{
    lemma_pow2_values();
    let j = y.scale();
    let d = (x.scale() - j) as nat;
    let a = x.significand() * pow2(d);
    let b = y.significand();
    lemma_pow2_adds(d, j);
    assert(x.significand() * pow2(x.scale()) == (x.significand() * pow2(d)) * pow2(j))
        by (nonlinear_arith)
        requires
            pow2(x.scale()) == pow2(d) * pow2(j),
    ;
    lemma_sum_aligned(x, y, a, b, j);
    lemma_nearest_bits_absorbs(
        x.significand(),
        b,
        d,
        j,
        x.spec_is_sign_negative() != y.spec_is_sign_negative(),
    );
}

/// The value `1.0`.
pub open spec fn one() -> Binary64 {
    Binary64 { bits: ONE_BITS }
}

/// Equality of the numbers that two values stand for: no NaN equals
/// anything, and the two zeros are equal.
pub open spec fn same_number(a: Binary64, b: Binary64) -> bool {
    !a.spec_is_nan() && !b.spec_is_nan() && (a == b || (a.spec_is_zero() && b.spec_is_zero()))
}

/// A finite value is the nearest value to its own magnitude.
pub proof fn lemma_nearest_bits_exact(x: Binary64)
    requires
        x.spec_is_finite(),
    ensures
        nearest_bits(x.magnitude(), 0) == x.magnitude_bits(),
{
    lemma_pow2_values();
    let sig = x.significand();
    let sc = x.scale();
    if sig == 0 {
        assert(sig * pow2(sc) == 0) by (nonlinear_arith)
            requires
                sig == 0,
        ;
    } else {
        lemma_nearest_bits_scale(sig, sc, sc as int);
        lemma_bit_length_bounds(sig);
        if sc >= 1 {
            lemma_bit_length_unique(sig, 53);
        } else if bit_length(sig) > 53 {
            lemma_pow2_monotonic(53, (bit_length(sig) - 1) as nat);
        }
        assert(sig * pow2(0) == sig) by (nonlinear_arith)
            requires
                pow2(0) == 1,
        ;
    }
}

/// The magnitude of a zero is zero.
pub proof fn lemma_zero_magnitude(z: Binary64)
    requires
        z.spec_is_zero(),
    ensures
        z.magnitude() == 0,
        z.value() == 0,
{
    assert(z.significand() * pow2(z.scale()) == 0) by (nonlinear_arith)
        requires
            z.significand() == 0,
    ;
}

/// Multiplying by one changes no value but a NaN.
pub proof fn lemma_product_one(x: Binary64)
    requires
        !x.spec_is_nan(),
    ensures
        product(one(), x) == x,
        product(x, one()) == x,
{
    lemma_pow2_values();
    if x.spec_is_finite() {
        let m = x.magnitude();
        lemma_pow2_adds(52, 1022);
        assert(pow2(1074) * m == m * pow2(1074)) by (nonlinear_arith);
        lemma_nearest_bits_scale(m, 1074, 0);
        lemma_nearest_bits_exact(x);
    }
}

/// Adding a zero changes no value but a NaN or a zero, and adding two zeros
/// gives a zero.
pub proof fn lemma_sum_zero(z: Binary64, x: Binary64)
    requires
        z.spec_is_zero(),
        !x.spec_is_nan(),
    ensures
        same_number(sum(z, x), x),
        same_number(sum(x, z), x),
        !x.spec_is_zero() ==> sum(z, x) == x && sum(x, z) == x,
{
    lemma_pow2_values();
    lemma_sum_commutes(z, x);
    if x.spec_is_finite() {
        lemma_nearest_bits_exact(x);
        let sig = x.significand();
        let p = pow2(x.scale());
        lemma_pow2_pos(x.scale());
        assert(sig * p > 0 <==> sig > 0) by (nonlinear_arith)
            requires
                p > 0,
                sig >= 0,
        ;
        lemma_zero_magnitude(z);
    }
}

/// A zero times a finite value is a zero.
pub proof fn lemma_product_zero(z: Binary64, x: Binary64)
    requires
        z.spec_is_zero(),
        x.spec_is_finite(),
    ensures
        product(z, x).spec_is_zero(),
        product(x, z).spec_is_zero(),
{
    lemma_pow2_values();
    lemma_zero_magnitude(z);
    assert(z.magnitude() * x.magnitude() == 0 && x.magnitude() * z.magnitude() == 0)
        by (nonlinear_arith)
        requires
            z.magnitude() == 0,
    ;
}

/// The difference of two zeros is a zero.
pub proof fn lemma_difference_zero(a: Binary64, b: Binary64)
    requires
        a.spec_is_zero(),
        b.spec_is_zero(),
    ensures
        difference(a, b).spec_is_zero(),
{
    lemma_pow2_values();
    lemma_sum_zero(a, negation(b));
}

impl Binary64 {
    /// The value with the opposite sign.
    pub fn neg(self) -> (r: Binary64)
        ensures
            r == negation(self),
    {
        Binary64::compose(!self.is_sign_negative(), self.abs_bits())
    }

    /// Adds two finite values, the first of which has the larger scale.
    fn add_ordered(self, rhs: Binary64) -> (r: Binary64)
        requires
            self.spec_is_finite(),
            rhs.spec_is_finite(),
            self.scale() >= rhs.scale(),
        ensures
            r == sum(self, rhs),
    {
        let negative = self.is_sign_negative();
        let rhs_negative = rhs.is_sign_negative();
        let (sig, scale) = self.decode();
        let (rhs_sig, rhs_scale) = rhs.decode();
        let d: u32 = scale - rhs_scale;
        if d > 60 {
            proof {
                lemma_sum_absorbs(self, rhs);
            }
            return self;
        }
        let p: u128 = pow2_u128(d);
        proof {
            lemma_pow2_values();
            lemma_pow2_monotonic(d as nat, 60);
            assert(sig * p <= 0x20_0000_0000_0000 * 0x1000_0000_0000_0000) by (nonlinear_arith)
                requires
                    sig <= 0x20_0000_0000_0000,
                    p <= 0x1000_0000_0000_0000,
            ;
        }
        let a: u128 = (sig as u128) * p;
        let b: u128 = rhs_sig as u128;
        proof {
            lemma_pow2_adds(d as nat, rhs_scale as nat);
            assert(sig * pow2(scale as nat) == (sig * pow2(d as nat)) * pow2(rhs_scale as nat))
                by (nonlinear_arith)
                requires
                    pow2(scale as nat) == pow2(d as nat) * pow2(rhs_scale as nat),
            ;
            lemma_sum_aligned(self, rhs, a as nat, b as nat, rhs_scale as nat);
        }
        if negative == rhs_negative {
            let m: u128 = a + b;
            if m == 0 {
                Binary64::compose(negative, 0)
            } else {
                Binary64::compose(negative, round_to_bits(m, rhs_scale as i32))
            }
        } else if a == b {
            Binary64::compose(false, 0)
        } else if a > b {
            Binary64::compose(negative, round_to_bits(a - b, rhs_scale as i32))
        } else {
            Binary64::compose(rhs_negative, round_to_bits(b - a, rhs_scale as i32))
        }
    }

    /// The sum of two values, rounded to nearest.
    pub fn add(self, rhs: Binary64) -> (r: Binary64)
        ensures
            r == sum(self, rhs),
    {
        if self.is_nan() || rhs.is_nan() {
            return Binary64 { bits: QUIET_NAN_BITS };
        }
        if self.is_infinite() {
            if rhs.is_infinite() && self.is_sign_negative() != rhs.is_sign_negative() {
                return Binary64 { bits: QUIET_NAN_BITS };
            }
            return self;
        }
        if rhs.is_infinite() {
            return rhs;
        }
        let (_, scale) = self.decode();
        let (_, rhs_scale) = rhs.decode();
        if scale >= rhs_scale {
            self.add_ordered(rhs)
        } else {
            proof {
                lemma_sum_commutes(self, rhs);
            }
            rhs.add_ordered(self)
        }
    }

    /// The difference of two values, rounded to nearest.
    pub fn sub(self, rhs: Binary64) -> (r: Binary64)
        ensures
            r == difference(self, rhs),
    {
        self.add(rhs.neg())
    }

    /// The product of two values, rounded to nearest.
    pub fn mul(self, rhs: Binary64) -> (r: Binary64)
        ensures
            r == product(self, rhs),
    {
        let negative = self.is_sign_negative() != rhs.is_sign_negative();
        if self.is_nan() || rhs.is_nan() {
            return Binary64 { bits: QUIET_NAN_BITS };
        }
        if self.is_infinite() || rhs.is_infinite() {
            if self.is_zero() || rhs.is_zero() {
                return Binary64 { bits: QUIET_NAN_BITS };
            }
            return Binary64::compose(negative, INFINITY_BITS);
        }
        let (sig, scale) = self.decode();
        let (rhs_sig, rhs_scale) = rhs.decode();
        if sig == 0 || rhs_sig == 0 {
            proof {
                assert(self.magnitude() == 0 || rhs.magnitude() == 0) by (nonlinear_arith)
                    requires
                        self.significand() == 0 || rhs.significand() == 0,
                        self.magnitude() == self.significand() * pow2(self.scale()),
                        rhs.magnitude() == rhs.significand() * pow2(rhs.scale()),
                ;
                assert(self.magnitude() * rhs.magnitude() == 0) by (nonlinear_arith)
                    requires
                        self.magnitude() == 0 || rhs.magnitude() == 0,
                ;
            }
            return Binary64::compose(negative, 0);
        }
        proof {
            lemma_pow2_values();
            assert(0 < sig * rhs_sig < 0x20_0000_0000_0000 * 0x20_0000_0000_0000)
                by (nonlinear_arith)
                requires
                    0 < sig < 0x20_0000_0000_0000,
                    0 < rhs_sig < 0x20_0000_0000_0000,
            ;
        }
        let m: u128 = (sig as u128) * (rhs_sig as u128);
        let e: i32 = (scale + rhs_scale) as i32 - 1074;
        proof {
            let j = (scale + rhs_scale) as nat;
            lemma_pow2_adds(scale as nat, rhs_scale as nat);
            assert((sig * pow2(scale as nat)) * (rhs_sig * pow2(rhs_scale as nat)) == (sig
                * rhs_sig) * pow2(j)) by (nonlinear_arith)
                requires
                    pow2(j) == pow2(scale as nat) * pow2(rhs_scale as nat),
            ;
            lemma_nearest_bits_scale(m as nat, j, e as int);
        }
        Binary64::compose(negative, round_to_bits(m, e))
    }
}

} // verus!
