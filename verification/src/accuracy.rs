//! The rounding is the one that IEEE 754 asks for: no binary64 value lies
//! closer to the exact result than the rounded one, a tie goes to the value
//! with the even bit pattern, and infinity is returned exactly from the
//! midpoint between the largest finite value and `2^1024` upwards.

use vstd::prelude::*;
use vstd::arithmetic::power2::{pow2, lemma_pow2_pos, lemma_pow2_adds, lemma_pow2_unfold};
use vstd::arithmetic::div_mod::{lemma_fundamental_div_mod, lemma_mod_pos_bound};
use crate::binary64::Binary64;
use crate::digits::{bit_length, lemma_bit_length_bounds, lemma_pow2_monotonic, lemma_pow2_values};
use crate::rounding::{digits_below_grid, nearest_bits, significand_at, INFINITY_BITS};

verus! {

/// The magnitude, in quanta, that a finite magnitude pattern stands for.
pub open spec fn pattern_magnitude(b: nat) -> nat {
    Binary64::from_parts(false, b).magnitude()
}

/// How far apart two numbers are.
pub open spec fn distance(a: int, b: int) -> int {
    if a >= b {
        a - b
    } else {
        b - a
    }
}

/// The exponent `e` where it is positive, else zero.
pub open spec fn raise(e: int) -> nat {
    if e > 0 {
        e as nat
    } else {
        0
    }
}

/// The exponent `-e` where `e` is negative, else zero.
pub open spec fn lower(e: int) -> nat {
    if e < 0 {
        (-e) as nat
    } else {
        0
    }
}

/// A pattern put together from a scale and a significand stands for
/// `significand * 2^scale`, also where the significand has been rounded up
/// to `2^53`.
pub proof fn lemma_pattern_magnitude(scale: nat, sig: nat)
    requires
        sig <= pow2(53),
        scale >= 1 ==> sig >= pow2(52),
        scale * pow2(52) + sig < INFINITY_BITS,
    ensures
        pattern_magnitude(scale * pow2(52) + sig) == sig * pow2(scale),
{
    lemma_pow2_values();
    if sig == pow2(53) {
        lemma_pow2_unfold(scale + 1);
        assert(pow2(52) * pow2(scale + 1) == sig * pow2(scale)) by (nonlinear_arith)
            requires
                pow2(scale + 1) == 2 * pow2(scale),
                sig == 2 * pow2(52),
        ;
    }
}

/// The shape of a rounded result: a scale that is not negative, and a
/// significand of at most `2^53` that has its leading one wherever the scale
/// is positive.
pub proof fn lemma_nearest_shape(m: nat, e: int)
    requires
        m > 0,
    ensures
        digits_below_grid(m, e) + e >= 0,
        significand_at(m, digits_below_grid(m, e)) <= pow2(53),
        digits_below_grid(m, e) + e >= 1 ==> significand_at(m, digits_below_grid(m, e)) >= pow2(
            52,
        ),
        digits_below_grid(m, e) <= 0 ==> significand_at(m, digits_below_grid(m, e)) < pow2(53),
        digits_below_grid(m, e) > 0 ==> m / pow2(digits_below_grid(m, e) as nat) < pow2(53),
        digits_below_grid(m, e) > 0 && digits_below_grid(m, e) + e >= 1 ==> m / pow2(
            digits_below_grid(m, e) as nat,
        ) >= pow2(52),
{
    lemma_pow2_values();
    lemma_bit_length_bounds(m);
    let l = bit_length(m);
    let q = digits_below_grid(m, e);
    let lo = pow2((l - 1) as nat) as int;
    let hi = pow2(l) as int;
    if q <= 0 {
        let t = (-q) as nat;
        let p = pow2(t) as int;
        lemma_pow2_pos(t);
        lemma_pow2_adds(l, t);
        lemma_pow2_adds((l - 1) as nat, t);
        lemma_pow2_monotonic(l + t, 53);
        assert(lo * p <= m * p < hi * p) by (nonlinear_arith)
            requires
                lo <= m < hi,
                p > 0,
        ;
    } else {
        let qq = q as nat;
        let p = pow2(qq) as int;
        lemma_pow2_pos(qq);
        lemma_fundamental_div_mod(m as int, p);
        lemma_mod_pos_bound(m as int, p);
        let d = m as int / p;
        let r = m as int % p;
        lemma_pow2_adds(qq, 53);
        lemma_pow2_monotonic(l, qq + 53);
        let k = pow2(53) as int;
        assert(d < k) by (nonlinear_arith)
            requires
                m == p * d + r,
                r >= 0,
                m < p * k,
                p > 0,
        ;
        if q + e >= 1 {
            lemma_pow2_adds(qq, 52);
            let h = pow2(52) as int;
            assert(d >= h) by (nonlinear_arith)
                requires
                    m == p * d + r,
                    r < p,
                    m >= p * h,
                    p > 0,
            ;
        }
    }
}

/// No finite binary64 value lies closer to `m * 2^e` quanta than the value
/// that `nearest_bits` names, and where another one lies as close, the
/// pattern that `nearest_bits` names is even. Both sides are scaled by
/// `2^lower(e)` so that the comparison is between whole numbers.
pub proof fn theorem_nearest(m: nat, e: int, c: Binary64)
    requires
        m > 0,
        c.spec_is_finite(),
        nearest_bits(m, e) < INFINITY_BITS,
    ensures
        ({
            let exact = m * pow2(raise(e));
            let rounded = pattern_magnitude(nearest_bits(m, e)) * pow2(lower(e));
            let other = c.magnitude() * pow2(lower(e));
            &&& distance(exact as int, rounded as int) <= distance(exact as int, other as int)
            &&& distance(exact as int, rounded as int) == distance(exact as int, other as int)
                && other != rounded ==> nearest_bits(m, e) % 2 == 0
        }),
{
    lemma_pow2_values();
    lemma_nearest_shape(m, e);
    let q = digits_below_grid(m, e);
    let sh = (q + e) as nat;
    let sig = significand_at(m, q);
    let j = raise(e);
    let k = lower(e);
    let a = pow2(j) as int;
    let b = pow2(k) as int;
    let ps = pow2(sh) as int;
    lemma_pow2_pos(j);
    lemma_pow2_pos(k);
    lemma_pow2_pos(sh);
    lemma_pattern_magnitude(sh, sig);
    let mi = m as int;
    let si = sig as int;
    let exact = mi * a;
    let rounded = (si * ps) * b;
    let csig = c.significand() as int;
    let cs = c.scale();
    let pc = pow2(cs) as int;
    lemma_pow2_pos(cs);
    let other = (csig * pc) * b;
    assert(si * ps >= 0 && mi * a >= 0 && csig * pc >= 0 && (si * ps) * b >= 0 && (csig * pc) * b
        >= 0) by (nonlinear_arith)
        requires
            si >= 0,
            ps > 0,
            mi >= 0,
            a > 0,
            csig >= 0,
            pc > 0,
            b > 0,
    ;
    if q <= 0 {
        let t = (-q) as nat;
        let pt = pow2(t) as int;
        lemma_pow2_adds(t, sh);
        lemma_pow2_adds(t + sh, k);
        assert(((mi * pt) * ps) * b == mi * ((pt * ps) * b)) by (nonlinear_arith);
        assert(mi * pt >= 0) by (nonlinear_arith)
            requires
                mi >= 0,
                pt >= 0,
        ;
    } else {
        let qq = q as nat;
        let pq = pow2(qq) as int;
        lemma_pow2_pos(qq);
        lemma_fundamental_div_mod(mi, pq);
        lemma_mod_pos_bound(mi, pq);
        let d = mi / pq;
        let r = mi % pq;
        lemma_pow2_adds(qq, j);
        lemma_pow2_adds(sh, k);
        let s = pq * a;
        let x = r * a;
        assert(exact == d * s + x && 0 <= x < s && s > 0) by (nonlinear_arith)
            requires
                mi == pq * d + r,
                0 <= r < pq,
                a > 0,
                s == pq * a,
                x == r * a,
                exact == mi * a,
        ;
        assert((2 * r > pq) == (2 * x > s) && (2 * r == pq) == (2 * x == s)) by (nonlinear_arith)
            requires
                a > 0,
                s == pq * a,
                x == r * a,
        ;
        assert(rounded == si * s) by (nonlinear_arith)
            requires
                rounded == (si * ps) * b,
                s == ps * b,
        ;
        assert((d + 1) * s == d * s + s) by (nonlinear_arith);
        // Every finite value is at most d * s or at least (d + 1) * s.
        if cs >= sh {
            let u = (cs - sh) as nat;
            let pu = pow2(u) as int;
            lemma_pow2_pos(u);
            lemma_pow2_adds(u, sh);
            let n = csig * pu;
            assert(other == n * s) by (nonlinear_arith)
                requires
                    other == (csig * pc) * b,
                    pc == pu * ps,
                    s == ps * b,
                    n == csig * pu,
            ;
            assert(n <= d ==> n * s <= d * s) by (nonlinear_arith)
                requires
                    s > 0,
            ;
            assert(n >= d + 1 ==> n * s >= (d + 1) * s) by (nonlinear_arith)
                requires
                    s > 0,
            ;
        } else {
            let u = (sh - 1 - cs) as nat;
            let pu = pow2(u) as int;
            lemma_pow2_pos(u);
            lemma_pow2_adds(u, cs);
            lemma_pow2_unfold(sh);
            let h = pow2(52) as int;
            assert(other <= d * s) by (nonlinear_arith)
                requires
                    other == (csig * pc) * b,
                    csig < 2 * h,
                    ps == 2 * (pu * pc),
                    pu >= 1,
                    pc >= 1,
                    b >= 1,
                    s == ps * b,
                    d >= h,
                    h >= 1,
            ;
        }
        if 2 * r == pq {
            assert((sh * pow2(52) + sig) % 2 == 0) by (nonlinear_arith)
                requires
                    sig % 2 == 0,
                    pow2(52) == 0x10_0000_0000_0000,
            ;
        }
    }
}

/// Rounding gives infinity exactly where `m * 2^e` quanta is at least the
/// midpoint between the largest finite value, `(2^53 - 1) * 2^2045` quanta,
/// and `2^53 * 2^2045`. Both sides are doubled and scaled by `2^lower(e)` so
/// that the comparison is between whole numbers.
pub proof fn theorem_overflow(m: nat, e: int)
    requires
        m > 0,
    ensures
        nearest_bits(m, e) == INFINITY_BITS <==> 2 * (m * pow2(raise(e))) >= ((pow2(54) - 1)
            * pow2(2045)) * pow2(lower(e)),
{
    lemma_pow2_values();
    lemma_nearest_shape(m, e);
    let q = digits_below_grid(m, e);
    let sh = (q + e) as nat;
    let sig = significand_at(m, q);
    let j = raise(e);
    let k = lower(e);
    let a = pow2(j) as int;
    let b = pow2(k) as int;
    let ps = pow2(sh) as int;
    let top = pow2(2045) as int;
    let h = pow2(52) as int;
    lemma_pow2_pos(j);
    lemma_pow2_pos(k);
    lemma_pow2_pos(sh);
    lemma_pow2_pos(2045);
    lemma_pow2_unfold(2046);
    lemma_pow2_unfold(2045);
    let mi = m as int;
    let si = sig as int;
    let exact = mi * a;
    let limit = ((4 * h - 1) * top) * b;
    assert(mi * a >= 0) by (nonlinear_arith)
        requires
            mi >= 0,
            a > 0,
    ;
    assert(sh >= 2046 ==> sh * h + si >= INFINITY_BITS) by (nonlinear_arith)
        requires
            sh >= 1 ==> si >= h,
            h == 0x10_0000_0000_0000,
    ;
    assert(sh <= 2044 ==> sh * h + si < INFINITY_BITS) by (nonlinear_arith)
        requires
            si <= 2 * h,
            h == 0x10_0000_0000_0000,
    ;
    assert(sh == 2045 ==> (sh * h + si >= INFINITY_BITS <==> si == 2 * h)) by (nonlinear_arith)
        requires
            si <= 2 * h,
            h == 0x10_0000_0000_0000,
    ;
    if sh >= 2046 {
        lemma_pow2_monotonic(2046, sh);
    } else if sh <= 2044 {
        lemma_pow2_monotonic(sh, 2044);
    }
    if q <= 0 {
        let t = (-q) as nat;
        let pt = pow2(t) as int;
        lemma_pow2_pos(t);
        lemma_pow2_adds(t, sh);
        lemma_pow2_adds(t + sh, k);
        assert(mi * pt >= 0) by (nonlinear_arith)
            requires
                mi >= 0,
                pt >= 0,
        ;
        assert(exact == (si * ps) * b) by (nonlinear_arith)
            requires
                exact == mi * a,
                a == (pt * ps) * b,
                si == mi * pt,
        ;
        if sh >= 2046 {
            assert(2 * ((si * ps) * b) >= limit) by (nonlinear_arith)
                requires
                    si >= h,
                    ps >= 2 * top,
                    b >= 1,
                    top >= 1,
                    h >= 1,
                    limit == ((4 * h - 1) * top) * b,
            ;
        } else {
            assert(2 * ((si * ps) * b) < limit) by (nonlinear_arith)
                requires
                    0 <= si < 2 * h,
                    0 < ps <= top,
                    b >= 1,
                    h >= 1,
                    limit == ((4 * h - 1) * top) * b,
            ;
        }
    } else {
        let qq = q as nat;
        let pq = pow2(qq) as int;
        lemma_pow2_pos(qq);
        lemma_fundamental_div_mod(mi, pq);
        lemma_mod_pos_bound(mi, pq);
        let d = mi / pq;
        let r = mi % pq;
        lemma_pow2_adds(qq, j);
        lemma_pow2_adds(sh, k);
        let s = pq * a;
        let x = r * a;
        assert(exact == d * s + x && 0 <= x < s && s > 0) by (nonlinear_arith)
            requires
                mi == pq * d + r,
                0 <= r < pq,
                a > 0,
                s == pq * a,
                x == r * a,
                exact == mi * a,
        ;
        assert((2 * r > pq) == (2 * x > s) && (2 * r == pq) == (2 * x == s)) by (nonlinear_arith)
            requires
                a > 0,
                s == pq * a,
                x == r * a,
        ;
        if sh >= 2046 {
            assert(2 * (d * s + x) >= limit) by (nonlinear_arith)
                requires
                    d >= h,
                    x >= 0,
                    s == ps * b,
                    ps >= 2 * top,
                    b >= 1,
                    top >= 1,
                    h >= 1,
                    limit == ((4 * h - 1) * top) * b,
            ;
        } else if sh == 2045 {
            assert(limit == (4 * h - 1) * s) by (nonlinear_arith)
                requires
                    limit == ((4 * h - 1) * top) * b,
                    s == top * b,
            ;
            if d == 2 * h - 1 {
                assert(2 * (d * s + x) >= (4 * h - 1) * s <==> 2 * x >= s) by (nonlinear_arith)
                    requires
                        d == 2 * h - 1,
                ;
            } else {
                assert(2 * (d * s + x) < (4 * h - 1) * s) by (nonlinear_arith)
                    requires
                        d + 1 <= 2 * h - 1,
                        0 <= x < s,
                ;
            }
        } else {
            assert(2 * (d * s + x) < limit) by (nonlinear_arith)
                requires
                    0 <= d < 2 * h,
                    0 <= x < s,
                    s == ps * b,
                    0 < 2 * ps <= top,
                    b >= 1,
                    h >= 1,
                    limit == ((4 * h - 1) * top) * b,
            ;
        }
    }
}

} // verus!
