//! Rounding onto the binary64 grid: to nearest, ties to even.
//!
//! Finite binary64 magnitudes are whole multiples of the quantum `2^-1074`.
//! A magnitude with bit pattern `b` is `significand * 2^scale` quanta, where
//! `b == scale * 2^52 + significand`; the significand is below `2^53`, and at
//! least `2^52` wherever the scale is positive. Everything here measures
//! magnitudes in quanta.

use vstd::prelude::*;
use vstd::arithmetic::power2::{pow2, lemma_pow2_pos, lemma_pow2_adds, lemma_pow2_unfold};
use vstd::arithmetic::div_mod::{lemma_fundamental_div_mod, lemma_mod_pos_bound};
use crate::digits::{
    bit_length,
    bit_length_u128,
    pow2_u128,
    lemma_bit_length_bounds,
    lemma_bit_length_scale,
    lemma_exact_div_mod,
    lemma_pow2_monotonic,
    lemma_pow2_values,
    lemma_scaled_div_mod,
    lemma_small_div_mod,
};

verus! {

/// The bit pattern of positive infinity; every larger magnitude pattern is a
/// NaN.
pub const INFINITY_BITS: u64 = 0x7ff0_0000_0000_0000;

/// The weight of the exponent field in a bit pattern, `2^52`.
pub const EXPONENT_UNIT: u64 = 0x0010_0000_0000_0000;

/// `m / 2^q` rounded to the nearest integer, a tie going to the even one.
pub open spec fn round_half_even(m: nat, q: nat) -> nat {
    let d = m / pow2(q);
    let r = m % pow2(q);
    if 2 * r > pow2(q) || (2 * r == pow2(q) && d % 2 == 1) {
        d + 1
    } else {
        d
    }
}

/// The number of low digits of `m` that lie below the last place of the
/// binary64 grid around `m * 2^e` quanta. It is negative where the grid is
/// finer than `m`'s own last digit.
pub open spec fn digits_below_grid(m: nat, e: int) -> int {
    let l = bit_length(m) as int;
    if l - 53 >= -e {
        l - 53
    } else {
        -e
    }
}

/// `m / 2^q` as a whole number: exact where `q <= 0`, rounded otherwise.
pub open spec fn significand_at(m: nat, q: int) -> nat {
    if q <= 0 {
        m * pow2((-q) as nat)
    } else {
        round_half_even(m, q as nat)
    }
}

/// The magnitude bit pattern of the binary64 value nearest to `m * 2^e`
/// quanta, ties to even; the pattern of infinity where that value would be
/// `2^1024` or more.
pub open spec fn nearest_bits(m: nat, e: int) -> nat {
    if m == 0 {
        0
    } else {
        let q = digits_below_grid(m, e);
        let b = (q + e) * pow2(52) + significand_at(m, q);
        if b >= INFINITY_BITS {
            INFINITY_BITS as nat
        } else {
            b as nat
        }
    }
}

/// Rounding does not see a common factor `2^j` of dividend and divisor.
pub proof fn lemma_round_half_even_scale(m: nat, j: nat, q: nat)
    ensures
        round_half_even(m * pow2(j), q + j) == round_half_even(m, q),
{
    lemma_scaled_div_mod(m, j, q);
    lemma_pow2_adds(q, j);
    lemma_pow2_pos(j);
    let p = pow2(j) as int;
    let d = pow2(q) as int;
    let r = (m % pow2(q)) as int;
    let r_scaled = ((m * pow2(j)) % pow2(q + j)) as int;
    let d_scaled = pow2(q + j) as int;
    lemma_pow2_pos(q);
    lemma_mod_pos_bound(m as int, d);
    assert(r * p >= 0) by (nonlinear_arith)
        requires
            r >= 0,
            p >= 0,
    ;
    assert((2 * r_scaled > d_scaled) == (2 * r > d)) by (nonlinear_arith)
        requires
            p > 0,
            r_scaled == r * p,
            d_scaled == d * p,
    ;
    assert((2 * r_scaled == d_scaled) == (2 * r == d)) by (nonlinear_arith)
        requires
            p > 0,
            r_scaled == r * p,
            d_scaled == d * p,
    ;
}

/// A multiple of `2^q` is divided by `2^q` without rounding.
pub proof fn lemma_round_half_even_exact(m: nat, q: nat)
    ensures
        round_half_even(m * pow2(q), q) == m,
{
    lemma_exact_div_mod(m, q);
    lemma_pow2_pos(q);
}

/// The nearest binary64 value depends on the number `m * 2^e` alone, not on
/// how it is split into `m` and `e`.
pub proof fn lemma_nearest_bits_scale(m: nat, j: nat, e: int)
    ensures
        nearest_bits(m * pow2(j), e - j) == nearest_bits(m, e),
{
    let p = pow2(j);
    lemma_pow2_pos(j);
    if m > 0 {
        assert(m * p > 0) by (nonlinear_arith)
            requires
                m > 0,
                p > 0,
        ;
        lemma_bit_length_scale(m, j);
        let q = digits_below_grid(m, e);
        if q + j <= 0 {
            let t = (-(q + j)) as nat;
            lemma_pow2_adds(j, t);
            assert((m * p) * pow2(t) == m * (p * pow2(t))) by (nonlinear_arith);
        } else if q <= 0 {
            let t = (-q) as nat;
            lemma_pow2_adds(t, (q + j) as nat);
            assert((m * pow2(t)) * pow2((q + j) as nat) == m * (pow2(t) * pow2((q + j) as nat)))
                by (nonlinear_arith);
            lemma_round_half_even_exact(m * pow2(t), (q + j) as nat);
        } else {
            lemma_round_half_even_scale(m, j, q as nat);
        }
    }
}

/// Computes the magnitude bit pattern of the binary64 value nearest to
/// `m * 2^e` quanta.
pub fn round_to_bits(m: u128, e: i32) -> (b: u64)
    requires
        0 < m < pow2(127),
        -0x10000 <= e <= 0x10000,
    ensures
        b == nearest_bits(m as nat, e as int),
        b <= INFINITY_BITS,
{
    let l: i32 = bit_length_u128(m) as i32;
    let q: i32 = if l - 53 >= -e {
        l - 53
    } else {
        -e
    };
    let scale: i32 = q + e;
    proof {
        lemma_pow2_values();
        lemma_bit_length_bounds(m as nat);
        if l > 127 {
            lemma_pow2_monotonic(127, (l - 1) as nat);
        }
    }
    if scale >= 2047 {
        proof {
            let s = significand_at(m as nat, q as int);
            assert((q + e) * pow2(52) + s >= INFINITY_BITS) by (nonlinear_arith)
                requires
                    q + e >= 2047,
                    s >= 0,
                    pow2(52) == 0x10_0000_0000_0000,
            ;
        }
        return INFINITY_BITS;
    }
    let sig: u64;
    if q <= 0 {
        let p: u128 = pow2_u128((-q) as u32);
        proof {
            lemma_pow2_adds(l as nat, (-q) as nat);
            lemma_pow2_monotonic((l - q) as nat, 53);
            let hi = pow2(l as nat);
            assert(m * p < hi * p) by (nonlinear_arith)
                requires
                    m < hi,
                    p > 0,
            ;
        }
        sig = (m * p) as u64;
    } else if q >= 128 {
        proof {
            lemma_pow2_monotonic(127, (q - 1) as nat);
            lemma_pow2_unfold(q as nat);
            lemma_small_div_mod(m as nat, q as nat);
        }
        sig = 0;
    } else {
        let p: u128 = pow2_u128(q as u32);
        let d: u128 = m / p;
        let r: u128 = m % p;
        let half: u128 = p / 2;
        proof {
            lemma_pow2_unfold(q as nat);
            lemma_pow2_adds(q as nat, 53);
            lemma_pow2_monotonic(l as nat, (q + 53) as nat);
            let k = pow2(53);
            lemma_fundamental_div_mod(m as int, p as int);
            assert(d < k) by (nonlinear_arith)
                requires
                    p * d <= m,
                    m < p * k,
                    p > 0,
            ;
        }
        if r > half || (r == half && d % 2 == 1) {
            sig = (d + 1) as u64;
        } else {
            sig = d as u64;
        }
    }
    let b: u64 = (scale as u64) * EXPONENT_UNIT + sig;
    if b >= INFINITY_BITS {
        INFINITY_BITS
    } else {
        b
    }
}

} // verus!
