//! Rounding an exact intermediate result to the nearest binary32 pattern.
use vstd::prelude::*;
use vstd::arithmetic::power2::{
    pow2, lemma_pow2_pos, lemma_pow2_unfold, lemma_pow2_adds, lemma_pow2_strictly_increases,
    lemma2_to64, lemma2_to64_rest,
};
use crate::binary32::{
    INFINITY, HIDDEN_BIT, magnitude, nearest_even, pack, lemma_pack, lemma_round_between,
    lemma_step, twice_midpoint,
};

verus! {

/// Exact intermediate results are handed to the rounding as an integer
/// times a power of two, over the fixed denominator two to this power.
pub const GUARD: u32 = 213;

/// Two to the power `k`.
pub(crate) fn pow2_u64(k: u32) -> (r: u64)
    requires
        k <= 63,
    ensures
        r == pow2(k as nat),
{
    proof {
        vstd::bits::lemma_u64_pow2_no_overflow(k as nat);
        vstd::bits::lemma_u64_shl_is_mul(1, k as u64);
    }
    1u64 << (k as u64)
}

/// Monotonicity of powers of two, strict or not.
pub proof fn lemma_pow2_le(a: nat, b: nat)
    requires
        a <= b,
    ensures
        pow2(a) <= pow2(b),
        pow2(a) > 0,
{
    lemma_pow2_pos(a);
    if a < b {
        lemma_pow2_strictly_increases(a, b);
    }
}

/// What is at least 2^128 rounds to infinity.
pub proof fn lemma_round_overflow(n: int, d: int)
    requires
        d > 0,
        n >= magnitude(INFINITY) * d,
    ensures
        nearest_even(n, d, INFINITY),
{
    let below = (INFINITY - 1) as u32;
    lemma_step(below);
    let mag = magnitude(INFINITY) as int;
    assert(twice_midpoint(below) * d < 2 * (mag * d)) by (nonlinear_arith)
        requires
            twice_midpoint(below) < 2 * mag,
            d > 0,
    ;
}

/// An exact multiple of a pattern's magnitude rounds to that pattern.
pub proof fn lemma_round_exact(d: int, m: u32)
    requires
        d > 0,
        m <= INFINITY,
    ensures
        nearest_even(magnitude(m) * d, d, m),
{
    if m < INFINITY {
        lemma_step(m);
        let p = pow2(crate::binary32::scale(m)) as int;
        assert(p * d > 0) by (nonlinear_arith)
            requires
                p > 0,
                d > 0,
        ;
        lemma_round_between(magnitude(m) * d, d, m, 0, p * d);
    } else {
        lemma_round_overflow(magnitude(m) * d, d);
    }
}

proof fn lemma_split(w: int, x: nat, s: nat, t: nat, p: int, q: int, rem: int)
    requires
        p == pow2(t),
        t + x == s + GUARD,
        w == q * p + rem,
        0 <= rem < p,
        0 <= q,
    ensures
        w * pow2(x) == (q * pow2(s)) * pow2(GUARD as nat) + rem * pow2(x),
        pow2(s) * pow2(GUARD as nat) == p * pow2(x),
        0 <= rem * pow2(x) < p * pow2(x),
        (2 * (rem * pow2(x)) < p * pow2(x)) == (2 * rem < p),
        (2 * (rem * pow2(x)) == p * pow2(x)) == (2 * rem == p),
{
    let px = pow2(x) as int;
    let ps = pow2(s) as int;
    let pg = pow2(GUARD as nat) as int;
    lemma_pow2_pos(x);
    lemma_pow2_adds(t, x);
    lemma_pow2_adds(s, GUARD as nat);
    assert(p * px == ps * pg);
    assert((q * p + rem) * px == q * (p * px) + rem * px) by (nonlinear_arith);
    assert(q * (ps * pg) == (q * ps) * pg) by (nonlinear_arith);
    assert(0 <= rem * px < p * px) by (nonlinear_arith)
        requires
            0 <= rem < p,
            px > 0,
    ;
    assert((2 * (rem * px) < p * px) == (2 * rem < p)) by (nonlinear_arith)
        requires
            px > 0,
    ;
    assert((2 * (rem * px) == p * px) == (2 * rem == p)) by (nonlinear_arith)
        requires
            px > 0,
    ;
}

/// Rounds `sig * 2^e / 2^213`, a magnitude in units of 2^-149, to the
/// nearest pattern, ties to even.
pub(crate) fn round_scaled(sig: u64, e: u32) -> (m: u32)
    requires
        sig < 0x8000_0000_0000_0000,
        64 <= e <= 1024,
    ensures
        nearest_even(sig * pow2(e as nat), pow2(GUARD as nat) as int, m),
{
    let ghost n: int = sig * pow2(e as nat);
    let ghost d: int = pow2(GUARD as nat) as int;
    proof {
        lemma_pow2_pos(GUARD as nat);
        lemma2_to64();
        lemma2_to64_rest();
    }
    if sig == 0 {
        proof {
            assert(n == 0) by (nonlinear_arith)
                requires
                    n == sig * pow2(e as nat),
                    sig == 0,
            ;
            lemma_pack(0, 0);
            lemma_round_between(n, d, 0, 0, d);
        }
        return 0;
    }
    let mut w: u64 = sig;
    let mut x: u32 = e;
    let mut k: u32 = 0;
    while w < 0x4000_0000_0000_0000
        invariant
            1 <= w < 0x8000_0000_0000_0000,
            k <= 62,
            x + k == e,
            64 <= e <= 1024,
            w * pow2(x as nat) == n,
            w >= pow2(k as nat),
            pow2(62) == 0x4000_0000_0000_0000,
        decreases 0x8000_0000_0000_0000 - w,
    {
        proof {
            if k >= 62 {
                lemma_pow2_le(62, k as nat);
            }
            lemma_pow2_unfold(x as nat);
            lemma_pow2_unfold((k + 1) as nat);
            let px = pow2((x - 1) as nat) as int;
            assert(w * (2 * px) == (2 * w) * px) by (nonlinear_arith);
        }
        w = w * 2;
        x = x - 1;
        k = k + 1;
    }
    // Now 2^62 <= w < 2^63, and the magnitude is w * 2^(x - 213).
    if x >= 428 {
        proof {
            // 2^62 * 2^x >= 2^23 * 2^254 * 2^213
            lemma_pack(253, 2 * HIDDEN_BIT as nat);
            assert(pack(253, 2 * HIDDEN_BIT as nat) == INFINITY);
            lemma_pow2_unfold(254);
            lemma_pow2_le(428, x as nat);
            lemma_pow2_adds(39, 428);
            lemma_pow2_adds(254, 213);
            let px = pow2(x as nat) as int;
            let p428 = pow2(428) as int;
            let p467 = pow2(467) as int;
            assert(magnitude(INFINITY) == HIDDEN_BIT * pow2(254)) by (nonlinear_arith)
                requires
                    magnitude(INFINITY) == (2 * HIDDEN_BIT) * pow2(253),
                    pow2(254) == 2 * pow2(253),
            ;
            assert(magnitude(INFINITY) * d == HIDDEN_BIT * p467) by (nonlinear_arith)
                requires
                    magnitude(INFINITY) == HIDDEN_BIT * pow2(254),
                    p467 == pow2(254) * d,
            ;
            assert(w * px >= HIDDEN_BIT * p467) by (nonlinear_arith)
                requires
                    w >= 0x4000_0000_0000_0000,
                    px >= p428,
                    p428 > 0,
                    p467 == 0x80_0000_0000 * p428,
                    HIDDEN_BIT == 0x80_0000,
            ;
            lemma_round_overflow(n, d);
        }
        return INFINITY;
    }
    if x <= 149 {
        proof {
            lemma_pack(0, 0);
            lemma_pow2_le(x as nat, 149);
            lemma_pow2_adds(64, 149);
            let px = pow2(x as nat) as int;
            let p149 = pow2(149) as int;
            assert(2 * (w * px) < 0x1_0000_0000_0000_0000 * p149) by (nonlinear_arith)
                requires
                    w < 0x8000_0000_0000_0000,
                    0 < px <= p149,
            ;
            assert(pow2(0) * d == d);
            lemma_round_between(n, d, 0, n, d);
        }
        return 0;
    }
    let s: u32 = if x > 174 { x - 174 } else { 0 };
    let t: u32 = s + GUARD - x;
    assert(39 <= t <= 63);
    let p: u64 = pow2_u64(t);
    let q: u64 = w / p;
    let rem: u64 = w % p;
    proof {
        lemma_pow2_le(39, t as nat);
        lemma_pow2_le(t as nat, 63);
        vstd::arithmetic::div_mod::lemma_fundamental_div_mod(w as int, p as int);
        vstd::arithmetic::div_mod::lemma_mod_division_less_than_divisor(w as int, p as int);
        assert(w == q * p + rem) by (nonlinear_arith)
            requires
                w == p * q + rem,
        ;
        assert(q < 2 * HIDDEN_BIT) by (nonlinear_arith)
            requires
                w == q * p + rem,
                w < 0x8000_0000_0000_0000,
                p >= 0x80_0000_0000,
                rem >= 0,
                HIDDEN_BIT == 0x80_0000,
        ;
        if s > 0 {
            assert(t == 39);
            assert(q >= HIDDEN_BIT);
        }
    }
    let m0: u32 = s * HIDDEN_BIT + (q as u32);
    proof {
        lemma_pack(s as nat, q as nat);
        assert(m0 == pack(s as nat, q as nat));
        lemma_split(w as int, x as nat, s as nat, t as nat, p as int, q as int, rem as int);
        lemma_round_between(n, d, m0, rem * pow2(x as nat), p * pow2(x as nat));
    }
    if 2 * rem > p || (2 * rem == p && q % 2 == 1) {
        m0 + 1
    } else {
        m0
    }
}

} // verus!
