//! Binary digits of natural numbers: bit lengths, powers of two, and how
//! division by a power of two behaves under scaling.

use vstd::prelude::*;
use vstd::arithmetic::power2::{
    pow2,
    lemma_pow2_pos,
    lemma_pow2_adds,
    lemma_pow2_unfold,
    lemma_pow2_strictly_increases,
    lemma2_to64,
    lemma2_to64_rest,
};
use vstd::arithmetic::div_mod::{
    lemma_fundamental_div_mod,
    lemma_fundamental_div_mod_converse,
    lemma_mod_pos_bound,
};

verus! {

/// The number of binary digits of `m`: zero for zero, and otherwise the one
/// `l` with `2^(l-1) <= m < 2^l`.
pub open spec fn bit_length(m: nat) -> nat
    decreases m,
{
    if m == 0 {
        0
    } else {
        1 + bit_length(m / 2)
    }
}

/// Powers of two grow with their exponent.
pub proof fn lemma_pow2_monotonic(a: nat, b: nat)
    requires
        a <= b,
    ensures
        pow2(a) <= pow2(b),
{
    if a < b {
        lemma_pow2_strictly_increases(a, b);
    }
}

/// The values of the powers of two that the binary64 format is built on.
pub proof fn lemma_pow2_values()
    ensures
        pow2(0) == 1,
        pow2(1) == 2,
        pow2(11) == 0x800,
        pow2(52) == 0x10_0000_0000_0000,
        pow2(53) == 0x20_0000_0000_0000,
        pow2(54) == 0x40_0000_0000_0000,
        pow2(56) == 0x100_0000_0000_0000,
        pow2(60) == 0x1000_0000_0000_0000,
        pow2(63) == 0x8000_0000_0000_0000,
        pow2(64) == 0x1_0000_0000_0000_0000,
        pow2(127) == 0x8000_0000_0000_0000_0000_0000_0000_0000,
        pow2(128) == 0x1_0000_0000_0000_0000_0000_0000_0000_0000,
{
    lemma2_to64();
    lemma2_to64_rest();
    lemma_pow2_adds(64, 63);
    lemma_pow2_adds(64, 64);
}

/// A positive number lies between the two powers of two that its bit length
/// names.
pub proof fn lemma_bit_length_bounds(m: nat)
    requires
        m > 0,
    ensures
        bit_length(m) >= 1,
        pow2((bit_length(m) - 1) as nat) <= m < pow2(bit_length(m)),
    decreases m,
{
    lemma2_to64();
    if m == 1 {
        assert(bit_length(1) == 1 + bit_length(0));
    } else {
        let h = m / 2;
        lemma_bit_length_bounds(h);
        let l = bit_length(h);
        lemma_pow2_unfold(l);
        lemma_pow2_unfold(l + 1);
    }
}

/// The bit length is the only `l` whose powers of two enclose `m`.
pub proof fn lemma_bit_length_unique(m: nat, l: nat)
    requires
        l >= 1,
        pow2((l - 1) as nat) <= m < pow2(l),
    ensures
        bit_length(m) == l,
{
    lemma_pow2_pos((l - 1) as nat);
    lemma_bit_length_bounds(m);
    let k = bit_length(m);
    if k < l {
        lemma_pow2_monotonic(k, (l - 1) as nat);
    } else if k > l {
        lemma_pow2_monotonic(l, (k - 1) as nat);
    }
}

/// Multiplying by `2^j` appends `j` digits.
pub proof fn lemma_bit_length_scale(m: nat, j: nat)
    requires
        m > 0,
    ensures
        bit_length(m * pow2(j)) == bit_length(m) + j,
{
    lemma_bit_length_bounds(m);
    let l = bit_length(m);
    let lo = pow2((l - 1) as nat);
    let hi = pow2(l);
    let p = pow2(j);
    lemma_pow2_pos(j);
    lemma_pow2_adds((l - 1) as nat, j);
    lemma_pow2_adds(l, j);
    assert(lo * p <= m * p < hi * p) by (nonlinear_arith)
        requires
            lo <= m < hi,
            p > 0,
    ;
    lemma_bit_length_unique(m * p, l + j);
}

/// Quotient and remainder by `2^(q+j)` of a multiple of `2^j`.
pub proof fn lemma_scaled_div_mod(m: nat, j: nat, q: nat)
    ensures
        (m * pow2(j)) / pow2(q + j) == m / pow2(q),
        (m * pow2(j)) % pow2(q + j) == (m % pow2(q)) * pow2(j),
{
    let p = pow2(j) as int;
    let d = pow2(q) as int;
    lemma_pow2_pos(j);
    lemma_pow2_pos(q);
    lemma_pow2_adds(q, j);
    lemma_fundamental_div_mod(m as int, d);
    lemma_mod_pos_bound(m as int, d);
    let k = m as int / d;
    let r = m as int % d;
    assert(m * p == k * (d * p) + r * p) by (nonlinear_arith)
        requires
            m == d * k + r,
    ;
    assert(0 <= r * p < d * p) by (nonlinear_arith)
        requires
            0 <= r < d,
            p > 0,
    ;
    lemma_fundamental_div_mod_converse(m * p, d * p, k, r * p);
}

/// A multiple of `2^q` divides by `2^q` without remainder.
pub proof fn lemma_exact_div_mod(m: nat, q: nat)
    ensures
        (m * pow2(q)) / pow2(q) == m,
        (m * pow2(q)) % pow2(q) == 0,
{
    lemma_pow2_pos(q);
    lemma_fundamental_div_mod_converse((m * pow2(q)) as int, pow2(q) as int, m as int, 0);
}

/// A number below `2^q` has quotient zero and is its own remainder.
pub proof fn lemma_small_div_mod(m: nat, q: nat)
    requires
        m < pow2(q),
    ensures
        m / pow2(q) == 0,
        m % pow2(q) == m,
{
    lemma_fundamental_div_mod_converse(m as int, pow2(q) as int, 0, m as int);
}

/// `2^n` as a machine integer.
pub fn pow2_u128(n: u32) -> (r: u128)
    requires
        n <= 127,
    ensures
        r == pow2(n as nat),
        r >= 1,
{
    let mut r: u128 = 1;
    let mut i: u32 = 0;
    proof {
        lemma_pow2_values();
    }
    while i < n
        invariant
            i <= n,
            n <= 127,
            r == pow2(i as nat),
            r >= 1,
        decreases n - i,
    {
        proof {
            lemma_pow2_unfold((i + 1) as nat);
            lemma_pow2_monotonic((i + 1) as nat, 127);
            lemma_pow2_values();
        }
        r = r * 2;
        i = i + 1;
    }
    r
}

/// The bit length of a machine integer.
pub fn bit_length_u128(m: u128) -> (l: u32)
    ensures
        l == bit_length(m as nat),
        l <= 128,
{
    proof {
        lemma_pow2_values();
        if m > 0 {
            lemma_bit_length_bounds(m as nat);
            if bit_length(m as nat) > 128 {
                lemma_pow2_monotonic(128, (bit_length(m as nat) - 1) as nat);
            }
        }
    }
    let mut x: u128 = m;
    let mut l: u32 = 0;
    while x > 0
        invariant
            bit_length(m as nat) == l + bit_length(x as nat),
            bit_length(m as nat) <= 128,
        decreases x,
    {
        x = x / 2;
        l = l + 1;
    }
    l
}

} // verus!
