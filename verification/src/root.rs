//! The square root of a binary32 pattern, correctly rounded.
use vstd::prelude::*;
use vstd::arithmetic::power2::{pow2, lemma_pow2_pos, lemma_pow2_adds, lemma_pow2_unfold, lemma2_to64};
use crate::binary32::{
    INFINITY, CANONICAL_NAN, HIDDEN_BIT, is_negative, abs_bits, is_nan, is_infinite, scale,
    magnitude, twice_midpoint, pack, lemma_pack, lemma_step, lemma_midpoint_increasing,
};
use crate::rounding::{lemma_pow2_le};
use crate::arith::{split_sign, unpack};

verus! {

/// `m` is the pattern nearest to the square root of `n` (both in units of
/// 2^-149), a tie going to the pattern with an even last bit. The
/// comparisons with the midpoints are made between squares.
pub open spec fn nearest_even_root(n: int, m: u32) -> bool {
    &&& m <= INFINITY
    &&& (m > 0 ==> {
        let low = twice_midpoint((m - 1) as u32);
        low * low < 4 * n || (low * low == 4 * n && m % 2 == 0)
    })
    &&& (m < INFINITY ==> {
        let high = twice_midpoint(m);
        4 * n < high * high || (4 * n == high * high && m % 2 == 0)
    })
}

/// The pattern that the square root of `n` rounds to.
pub open spec fn round_root(n: int) -> u32 {
    choose|m: u32| nearest_even_root(n, m)
}

/// The square root of a pattern. A NaN, or a negative number other than
/// zero, gives the canonical NaN; a zero keeps its sign.
pub open spec fn sqrt_spec(a: u32) -> u32 {
    if is_nan(a) {
        CANONICAL_NAN
    } else if abs_bits(a) == 0 {
        a
    } else if is_negative(a) {
        CANONICAL_NAN
    } else if is_infinite(a) {
        a
    } else {
        round_root((magnitude(a) * pow2(149)) as int)
    }
}

proof fn lemma_square_order(x: int, y: int)
    by (nonlinear_arith)
    requires
        0 <= x,
        0 <= y,
    ensures
        (x < y) == (x * x < y * y),
        (x == y) == (x * x == y * y),
{
}

proof fn lemma_root_not_below(n: int, m1: u32, m2: u32)
    requires
        nearest_even_root(n, m1),
        nearest_even_root(n, m2),
    ensures
        m1 >= m2,
{
    if m1 < m2 {
        let hi = twice_midpoint(m1);
        let lo = twice_midpoint((m2 - 1) as u32);
        lemma_square_order(hi, lo);
        if m1 < m2 - 1 {
            lemma_midpoint_increasing(m1, (m2 - 1) as u32);
        }
    }
}

/// At most one pattern is nearest to a given square root.
pub proof fn lemma_nearest_even_root_unique(n: int, m1: u32, m2: u32)
    requires
        nearest_even_root(n, m1),
        nearest_even_root(n, m2),
    ensures
        m1 == m2,
{
    lemma_root_not_below(n, m1, m2);
    lemma_root_not_below(n, m2, m1);
}

/// Where the root of `n` lies between the magnitude of `m` and that of the
/// next pattern, it rounds to the nearer of the two.
proof fn lemma_root_between(n: int, m: u32, low: int, unit: int)
    requires
        m < INFINITY,
        low == 2 * magnitude(m),
        unit == pow2(scale(m)),
        low * low <= 4 * n,
        4 * n < (low + 2 * unit) * (low + 2 * unit),
    ensures
        4 * n < (low + unit) * (low + unit) ==> nearest_even_root(n, m),
        4 * n > (low + unit) * (low + unit) ==> nearest_even_root(n, (m + 1) as u32),
        4 * n == (low + unit) * (low + unit) ==> nearest_even_root(
            n,
            if m % 2 == 0 {
                m
            } else {
                (m + 1) as u32
            },
        ),
{
    lemma_step(m);
    assert(twice_midpoint(m) == low + unit);
    if m > 0 {
        let below = (m - 1) as u32;
        lemma_step(below);
        lemma_square_order(twice_midpoint(below), low);
    }
    if m + 1 < INFINITY {
        let above = (m + 1) as u32;
        lemma_step(above);
        lemma_square_order(low + 2 * unit, twice_midpoint(above));
    }
}

/// The integer square root.
fn isqrt(w: u64) -> (r: u64)
    requires
        w < 0x4_0000_0000_0000,
    ensures
        r * r <= w < (r + 1) * (r + 1),
        r < 0x200_0000,
{
    let mut r: u64 = 0;
    let mut span: u64 = 0x200_0000;
    let mut i: u32 = 25;
    proof {
        lemma2_to64();
    }
    while i > 0
        invariant
            span == pow2(i as nat),
            i <= 25,
            r + span <= 0x200_0000,
            r * r <= w,
            w < (r + span) * (r + span),
        decreases i,
    {
        proof {
            lemma_pow2_unfold(i as nat);
            lemma_pow2_pos((i - 1) as nat);
        }
        let half: u64 = span / 2;
        let cand: u64 = r + half;
        assert(cand * cand <= 0x4_0000_0000_0000) by (nonlinear_arith)
            requires
                cand <= 0x200_0000,
        ;
        if cand * cand <= w {
            r = cand;
        }
        span = half;
        i = i - 1;
    }
    r
}

proof fn lemma_quadruple(q: int, k: nat, c: nat, w: int, h: nat)
    requires
        w == q * pow2(c),
        k == c + 2 * h,
    ensures
        4 * (q * pow2(k)) == w * (pow2(h + 1) * pow2(h + 1)),
{
    let p = pow2(h + 1) as int;
    lemma2_to64();
    lemma_pow2_adds(h + 1, h + 1);
    lemma_pow2_adds(c, 2 * h + 2);
    lemma_pow2_adds(k, 2);
    let pc = pow2(c) as int;
    let pk = pow2(k) as int;
    assert(pk * 4 == pc * (p * p));
    assert(4 * (q * pk) == (q * pc) * (p * p)) by (nonlinear_arith)
        requires
            pk * 4 == pc * (p * p),
    ;
}

proof fn lemma_scaled_squares(x: int, y: int, w: int, p: int)
    by (nonlinear_arith)
    requires
        p > 0,
        0 <= x,
        0 <= y,
    ensures
        (x * p) * (x * p) == (x * x) * (p * p),
        (x * x <= w) ==> (x * p) * (x * p) <= w * (p * p),
        (w < y * y) ==> w * (p * p) < (y * p) * (y * p),
        (w < y * y) == (w * (p * p) < (y * p) * (y * p)),
        (w == y * y) == (w * (p * p) == (y * p) * (y * p)),
{
}

/// From the integer root `2 * qr + g` of `w`, where the square root of `n`
/// is that of `w` times `2^(h + 1)`, to the pattern it rounds to.
proof fn lemma_root_pick(n: int, h: nat, qr: int, g: int, r0: int, w: int)
    requires
        h + 1 <= 253,
        HIDDEN_BIT <= qr < 2 * HIDDEN_BIT,
        g == 0 || g == 1,
        r0 == 2 * qr + g,
        r0 * r0 <= w,
        w < (r0 + 1) * (r0 + 1),
        4 * n == w * (pow2(h + 1) * pow2(h + 1)),
    ensures
        nearest_even_root(
            n,
            if g == 1 && (r0 * r0 != w || qr % 2 == 1) {
                (pack(h + 1, qr as nat) + 1) as u32
            } else {
                pack(h + 1, qr as nat) as u32
            },
        ),
{
    let p = pow2(h + 1) as int;
    let m0 = pack(h + 1, qr as nat) as u32;
    lemma_pack(h + 1, qr as nat);
    lemma_pow2_pos(h + 1);
    let low = 2 * magnitude(m0) as int;
    let a = 2 * qr;
    let b = 2 * qr + 1;
    let cc = 2 * qr + 2;
    assert(low == a * p && low + p == b * p && low + 2 * p == cc * p) by (nonlinear_arith)
        requires
            low == 2 * (qr * p),
            a == 2 * qr,
            b == 2 * qr + 1,
            cc == 2 * qr + 2,
    ;
    assert(a * a <= w && w < cc * cc) by (nonlinear_arith)
        requires
            r0 * r0 <= w,
            w < (r0 + 1) * (r0 + 1),
            r0 == a + g,
            g == 0 || g == 1,
            a >= 0,
            cc == a + 2,
    ;
    assert(g == 1 ==> r0 * r0 == b * b);
    assert(g == 0 ==> (r0 + 1) * (r0 + 1) == b * b);
    lemma_scaled_squares(a, cc, w, p);
    lemma_scaled_squares(a, b, w, p);
    assert(low * low == (a * p) * (a * p));
    assert((low + 2 * p) * (low + 2 * p) == (cc * p) * (cc * p));
    assert((low + p) * (low + p) == (b * p) * (b * p));
    lemma_root_between(n, m0, low, p);
    assert(m0 % 2 == qr % 2);
}

/// Shifts a non-zero significand up until its leading bit is the hidden
/// bit, and counts the shifts.
fn normalize(q0: u64) -> (r: (u64, u32))
    requires
        0 < q0 < 2 * HIDDEN_BIT,
    ensures
        HIDDEN_BIT <= r.0 < 2 * HIDDEN_BIT,
        r.1 <= 23,
        r.0 == q0 * pow2(r.1 as nat),
        q0 >= HIDDEN_BIT ==> r.1 == 0,
{
    let mut q: u64 = q0;
    let mut l: u32 = 0;
    proof {
        lemma2_to64();
    }
    while q < HIDDEN_BIT as u64
        invariant
            1 <= q < 2 * HIDDEN_BIT,
            l <= 23,
            q == q0 * pow2(l as nat),
            q >= pow2(l as nat),
            q >= q0,
            l > 0 ==> q0 < HIDDEN_BIT,
            pow2(23) == 0x80_0000,
        decreases 2 * HIDDEN_BIT - q,
    {
        proof {
            if l >= 23 {
                lemma_pow2_le(23, l as nat);
            }
            lemma_pow2_unfold((l + 1) as nat);
            let pl = pow2(l as nat) as int;
            assert(q0 * (2 * pl) == 2 * (q0 * pl)) by (nonlinear_arith);
        }
        q = q * 2;
        l = l + 1;
    }
    (q, l)
}

/// The rounded square root of `q * 2^k`, in units of 2^-149, for a
/// normalized `q`.
fn root_of_normal(q: u64, k: u32, Ghost(n): Ghost<int>) -> (m: u32)
    requires
        HIDDEN_BIT <= q < 2 * HIDDEN_BIT,
        126 <= k <= 402,
        n == q * pow2(k as nat),
    ensures
        nearest_even_root(n, m),
{
    let odd: bool = k % 2 == 1;
    let c: u32 = if odd { 25 } else { 26 };
    let w: u64 = if odd { q * 0x200_0000 } else { q * 0x400_0000 };
    let h: u32 = (k - c) / 2;
    let r0 = isqrt(w);
    let qr: u64 = r0 / 2;
    let g: u64 = r0 % 2;
    let exact: bool = r0 * r0 == w;
    proof {
        lemma2_to64();
        lemma_quadruple(q as int, k as nat, c as nat, w as int, h as nat);
        assert(r0 >= 0x100_0000) by (nonlinear_arith)
            requires
                w < (r0 + 1) * (r0 + 1),
                w >= 0x1_0000_0000_0000,
        ;
        lemma_pack((h + 1) as nat, qr as nat);
        lemma_root_pick(n, h as nat, qr as int, g as int, r0 as int, w as int);
    }
    let m0: u32 = (h + 1) * HIDDEN_BIT + (qr as u32);
    if g == 1 && (!exact || qr % 2 == 1) {
        m0 + 1
    } else {
        m0
    }
}

/// The square root of `a`, correctly rounded.
pub fn sqrt(a: u32) -> (r: u32)
    ensures
        r == sqrt_spec(a),
{
    let (an, am) = split_sign(a);
    if am > INFINITY {
        return CANONICAL_NAN;
    }
    if am == 0 {
        return a;
    }
    if an {
        return CANONICAL_NAN;
    }
    if am == INFINITY {
        return a;
    }
    let (q0, s0) = unpack(am);
    let (q, l) = normalize(q0);
    let ghost n: int = (magnitude(am) * pow2(149)) as int;
    proof {
        let k = (s0 + 149 - l) as nat;
        lemma_pow2_adds(s0 as nat, 149);
        lemma_pow2_adds(l as nat, k);
        let ps = pow2(s0 as nat) as int;
        let p149 = pow2(149) as int;
        let pl = pow2(l as nat) as int;
        let pk = pow2(k) as int;
        assert((q0 * ps) * p149 == (q0 * pl) * pk) by (nonlinear_arith)
            requires
                ps * p149 == pl * pk,
        ;
    }
    let m = root_of_normal(q, s0 + 149 - l, Ghost(n));
    proof {
        lemma_nearest_even_root_unique(n, m, round_root(n));
    }
    m
}

} // verus!
