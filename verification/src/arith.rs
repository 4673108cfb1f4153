//! Addition, subtraction, multiplication and comparison of binary32
//! patterns, each correctly rounded to nearest, ties to even.
use vstd::prelude::*;
use vstd::arithmetic::power2::{pow2, lemma_pow2_pos, lemma_pow2_adds, lemma_pow2_unfold, lemma2_to64};
use crate::binary32::{
    SIGN_BIT, INFINITY, CANONICAL_NAN, HIDDEN_BIT, is_negative, abs_bits, negate, with_sign,
    is_nan, is_infinite, significand, scale, magnitude, value, nearest_even,
    round_nearest_even, lemma_step, lemma_magnitude_increasing, lemma_nearest_even_unique,
    lemma_nearest_even_scaled, lemma_round_between, lemma_magnitude_zero,
};
use crate::rounding::{GUARD, pow2_u64, round_scaled, lemma_pow2_le, lemma_round_exact};

verus! {

/// The sum of two patterns. A NaN operand, or infinities of opposite
/// sign, give the canonical NaN; an exact zero is negative only when both
/// operands are.
pub open spec fn add_spec(a: u32, b: u32) -> u32 {
    if is_nan(a) || is_nan(b) {
        CANONICAL_NAN
    } else if is_infinite(a) {
        if is_infinite(b) && is_negative(a) != is_negative(b) {
            CANONICAL_NAN
        } else {
            a
        }
    } else if is_infinite(b) {
        b
    } else {
        let sum = value(a) + value(b);
        if sum == 0 {
            if is_negative(a) && is_negative(b) {
                SIGN_BIT
            } else {
                0
            }
        } else if sum > 0 {
            round_nearest_even(sum, 1)
        } else {
            with_sign(true, round_nearest_even(-sum, 1))
        }
    }
}

/// The difference of two patterns: the sum with the second negated.
pub open spec fn sub_spec(a: u32, b: u32) -> u32 {
    add_spec(a, negate(b))
}

/// The product of two patterns. A NaN operand, or zero times infinity,
/// gives the canonical NaN; the sign is the exclusive or of the signs.
pub open spec fn mul_spec(a: u32, b: u32) -> u32 {
    let negative = is_negative(a) != is_negative(b);
    if is_nan(a) || is_nan(b) {
        CANONICAL_NAN
    } else if (is_infinite(a) && abs_bits(b) == 0) || (abs_bits(a) == 0 && is_infinite(b)) {
        CANONICAL_NAN
    } else if is_infinite(a) || is_infinite(b) {
        with_sign(negative, INFINITY)
    } else {
        with_sign(
            negative,
            round_nearest_even(
                (magnitude(abs_bits(a)) * magnitude(abs_bits(b))) as int,
                pow2(149) as int,
            ),
        )
    }
}

/// Whether the first pattern is less than or equal to the second. False
/// whenever one of them is a NaN; the two zeros are equal.
pub open spec fn le_spec(a: u32, b: u32) -> bool {
    !is_nan(a) && !is_nan(b) && value(a) <= value(b)
}

/// Whether two patterns stand for the same number. False whenever one of
/// them is a NaN; the two zeros are equal.
pub open spec fn eq_spec(a: u32, b: u32) -> bool {
    !is_nan(a) && !is_nan(b) && value(a) == value(b)
}

/// The pattern nearest to `n / d` is the one that `n / d` rounds to.
pub proof fn lemma_round_is(n: int, d: int, m: u32)
    requires
        d > 0,
        nearest_even(n, d, m),
    ensures
        round_nearest_even(n, d) == m,
{
    lemma_nearest_even_unique(n, d, m, round_nearest_even(n, d));
}

/// Zero rounds to the pattern of zero.
pub proof fn lemma_round_zero(d: int)
    requires
        d > 0,
    ensures
        round_nearest_even(0, d) == 0,
{
    lemma_round_exact(d, 0);
    lemma_magnitude_zero();
    assert(magnitude(0) * d == 0);
    lemma_round_is(0, d, 0);
}

pub(crate) fn split_sign(b: u32) -> (r: (bool, u32))
    ensures
        r.0 == is_negative(b),
        r.1 == abs_bits(b),
{
    if b >= SIGN_BIT {
        (true, b - SIGN_BIT)
    } else {
        (false, b)
    }
}

pub(crate) fn signed(negative: bool, m: u32) -> (r: u32)
    ensures
        r == with_sign(negative, m),
{
    if negative && m < SIGN_BIT {
        m + SIGN_BIT
    } else {
        m
    }
}

/// Significand and scale of a magnitude pattern.
pub(crate) fn unpack(m: u32) -> (r: (u64, u32))
    requires
        m <= INFINITY,
    ensures
        r.0 == significand(m),
        r.1 == scale(m),
        r.0 < 2 * HIDDEN_BIT,
        r.1 <= 254,
        r.1 > 0 ==> r.0 >= HIDDEN_BIT,
{
    let e: u32 = m / HIDDEN_BIT;
    let f: u32 = m % HIDDEN_BIT;
    if e == 0 {
        (f as u64, 0)
    } else {
        ((f + HIDDEN_BIT) as u64, e - 1)
    }
}

proof fn lemma_far(big: u32, small: u32, subtract: bool)
    requires
        small < big < INFINITY,
        scale(big) >= scale(small) + 39,
        significand(small) > 0,
    ensures
        nearest_even(
            if subtract {
                magnitude(big) - magnitude(small)
            } else {
                (magnitude(big) + magnitude(small)) as int
            },
            1,
            big,
        ),
{
    let sb = scale(big);
    let ss = scale(small);
    let qs = significand(small) as int;
    let ns = magnitude(small) as int;
    let nb = magnitude(big) as int;
    lemma2_to64();
    lemma_pow2_pos(ss);
    lemma_pow2_adds(25, ss);
    lemma_pow2_le(25 + ss, (sb - 1) as nat);
    lemma_pow2_unfold(sb);
    let pss = pow2(ss) as int;
    let half = pow2((sb - 1) as nat) as int;
    assert(0 < ns && 2 * ns < half) by (nonlinear_arith)
        requires
            ns == qs * pss,
            0 < qs < 0x100_0000,
            pss > 0,
            0x200_0000 * pss <= half,
    ;
    if subtract {
        let below = (big - 1) as u32;
        lemma_step(below);
        let unit = pow2(scale(below)) as int;
        assert(scale(below) >= sb - 1);
        lemma_pow2_le((sb - 1) as nat, scale(below));
        lemma_round_between(nb - ns, 1, below, unit - ns, unit);
    } else {
        lemma_round_between(nb + ns, 1, big, ns, 2 * half);
    }
}

proof fn lemma_aligned(qb: int, sb: nat, qs: int, ss: nat, pd: int)
    requires
        ss <= sb,
        pd == pow2((sb - ss) as nat),
    ensures
        (qb * pd + qs) * pow2(ss + GUARD as nat) == (qb * pow2(sb) + qs * pow2(ss)) * pow2(
            GUARD as nat,
        ),
        (qb * pd - qs) * pow2(ss + GUARD as nat) == (qb * pow2(sb) - qs * pow2(ss)) * pow2(
            GUARD as nat,
        ),
        (qb * pd - qs) * pow2(ss) == qb * pow2(sb) - qs * pow2(ss),
        pow2(ss) > 0,
{
    lemma_pow2_adds((sb - ss) as nat, ss);
    lemma_pow2_adds(ss, GUARD as nat);
    lemma_pow2_pos(ss);
    let pss = pow2(ss) as int;
    let psb = pow2(sb) as int;
    let pg = pow2(GUARD as nat) as int;
    let psg = pow2(ss + GUARD as nat) as int;
    assert((qb * pd + qs) * psg == (qb * psb + qs * pss) * pg) by (nonlinear_arith)
        requires
            psb == pd * pss,
            psg == pss * pg,
    ;
    assert((qb * pd - qs) * psg == (qb * psb - qs * pss) * pg) by (nonlinear_arith)
        requires
            psb == pd * pss,
            psg == pss * pg,
    ;
    assert((qb * pd - qs) * pss == qb * psb - qs * pss) by (nonlinear_arith)
        requires
            psb == pd * pss,
    ;
}

/// The rounded sum or difference of two finite magnitudes, the larger
/// first.
fn combine(big: u32, small: u32, subtract: bool) -> (m: u32)
    requires
        small <= big < INFINITY,
        subtract ==> small < big,
    ensures
        nearest_even(
            if subtract {
                magnitude(big) - magnitude(small)
            } else {
                (magnitude(big) + magnitude(small)) as int
            },
            1,
            m,
        ),
{
    let (qb, sb) = unpack(big);
    let (qs, ss) = unpack(small);
    let ghost nb = magnitude(big) as int;
    let ghost ns = magnitude(small) as int;
    let ghost n = if subtract { nb - ns } else { nb + ns };
    assert(ss <= sb);
    if qs == 0 {
        proof {
            assert(ns == 0) by (nonlinear_arith)
                requires
                    ns == qs * pow2(ss as nat),
                    qs == 0,
            ;
            lemma_round_exact(1, big);
            assert(magnitude(big) * 1 == nb);
        }
        return big;
    }
    let gap: u32 = sb - ss;
    if gap > 38 {
        proof {
            lemma_far(big, small, subtract);
        }
        return big;
    }
    let pd: u64 = pow2_u64(gap);
    proof {
        lemma2_to64();
        vstd::arithmetic::power2::lemma2_to64_rest();
        lemma_pow2_le(gap as nat, 38);
        assert(qb * pd < 0x4000_0000_0000_0000) by (nonlinear_arith)
            requires
                qb < 0x100_0000,
                0 < pd <= 0x40_0000_0000,
        ;
        lemma_aligned(qb as int, sb as nat, qs as int, ss as nat, pd as int);
        if subtract {
            lemma_magnitude_increasing(small, big);
            let pss = pow2(ss as nat) as int;
            let diff = qb * pd - qs;
            assert(diff > 0) by (nonlinear_arith)
                requires
                    diff * pss > 0,
                    pss > 0,
            ;
        }
    }
    let hi: u64 = qb * pd;
    let sig: u64 = if subtract { hi - qs } else { hi + qs };
    let m = round_scaled(sig, ss + GUARD);
    proof {
        let c = pow2(GUARD as nat) as int;
        lemma_pow2_pos(GUARD as nat);
        assert(sig * pow2((ss + GUARD) as nat) == n * c);
        lemma_nearest_even_scaled(n, 1, c, m);
        assert(1 * c == c);
    }
    m
}

/// `a + b`, correctly rounded.
pub fn add(a: u32, b: u32) -> (r: u32)
    ensures
        r == add_spec(a, b),
{
    let (an, am) = split_sign(a);
    let (bn, bm) = split_sign(b);
    if am > INFINITY || bm > INFINITY {
        return CANONICAL_NAN;
    }
    if am == INFINITY {
        if bm == INFINITY && an != bn {
            return CANONICAL_NAN;
        }
        return a;
    }
    if bm == INFINITY {
        return b;
    }
    let ghost na = magnitude(am) as int;
    let ghost nb = magnitude(bm) as int;
    if an == bn {
        let m = if am >= bm { combine(am, bm, false) } else { combine(bm, am, false) };
        proof {
            lemma_round_is(na + nb, 1, m);
            if na + nb == 0 {
                lemma_round_zero(1);
            }
        }
        signed(an, m)
    } else if am == bm {
        0
    } else if am > bm {
        let m = combine(am, bm, true);
        proof {
            lemma_magnitude_increasing(bm, am);
            lemma_round_is(na - nb, 1, m);
        }
        signed(an, m)
    } else {
        let m = combine(bm, am, true);
        proof {
            lemma_magnitude_increasing(am, bm);
            lemma_round_is(nb - na, 1, m);
        }
        signed(bn, m)
    }
}

/// `a - b`, correctly rounded.
pub fn sub(a: u32, b: u32) -> (r: u32)
    ensures
        r == sub_spec(a, b),
{
    let flipped: u32 = if b >= SIGN_BIT { b - SIGN_BIT } else { b + SIGN_BIT };
    self::add(a, flipped)
}

/// `a * b`, correctly rounded.
pub fn mul(a: u32, b: u32) -> (r: u32)
    ensures
        r == mul_spec(a, b),
{
    let (an, am) = split_sign(a);
    let (bn, bm) = split_sign(b);
    let negative = an != bn;
    if am > INFINITY || bm > INFINITY {
        return CANONICAL_NAN;
    }
    if (am == INFINITY && bm == 0) || (am == 0 && bm == INFINITY) {
        return CANONICAL_NAN;
    }
    if am == INFINITY || bm == INFINITY {
        return signed(negative, INFINITY);
    }
    let (qa, sa) = unpack(am);
    let (qb, sb) = unpack(bm);
    proof {
        assert(qa * qb < 0x1_0000_0000_0000) by (nonlinear_arith)
            requires
                qa < 0x100_0000,
                qb < 0x100_0000,
        ;
    }
    let sig: u64 = qa * qb;
    let m = round_scaled(sig, sa + sb + 64);
    proof {
        let n = magnitude(am) * magnitude(bm);
        let c = pow2(64) as int;
        let d = pow2(149) as int;
        let psa = pow2(sa as nat) as int;
        let psb = pow2(sb as nat) as int;
        let pe = pow2((sa + sb + 64) as nat) as int;
        lemma_pow2_pos(64);
        lemma_pow2_pos(149);
        lemma_pow2_adds(149, 64);
        lemma_pow2_adds(sa as nat, sb as nat);
        lemma_pow2_adds((sa + sb) as nat, 64);
        assert(sig * pe == n * c) by (nonlinear_arith)
            requires
                sig == qa * qb,
                n == (qa * psa) * (qb * psb),
                pe == (psa * psb) * c,
        ;
        lemma_nearest_even_scaled(n as int, d, c, m);
        lemma_round_is(n as int, d, m);
    }
    signed(negative, m)
}

/// `a <= b` as IEEE 754 orders them.
pub fn le(a: u32, b: u32) -> (r: bool)
    ensures
        r == le_spec(a, b),
{
    let (an, am) = split_sign(a);
    let (bn, bm) = split_sign(b);
    if am > INFINITY || bm > INFINITY {
        return false;
    }
    proof {
        if am < bm {
            lemma_magnitude_increasing(am, bm);
        }
        if bm < am {
            lemma_magnitude_increasing(bm, am);
        }
        if 0 < am {
            lemma_magnitude_increasing(0, am);
        }
        if 0 < bm {
            lemma_magnitude_increasing(0, bm);
        }
        lemma_magnitude_zero();
    }
    if an {
        if bn {
            bm <= am
        } else {
            true
        }
    } else {
        if bn {
            am == 0 && bm == 0
        } else {
            am <= bm
        }
    }
}

/// `a == b` as IEEE 754 compares them.
pub fn eq(a: u32, b: u32) -> (r: bool)
    ensures
        r == eq_spec(a, b),
{
    let (an, am) = split_sign(a);
    let (bn, bm) = split_sign(b);
    if am > INFINITY || bm > INFINITY {
        return false;
    }
    proof {
        if am < bm {
            lemma_magnitude_increasing(am, bm);
        }
        if bm < am {
            lemma_magnitude_increasing(bm, am);
        }
        if 0 < am {
            lemma_magnitude_increasing(0, am);
        }
        lemma_magnitude_zero();
    }
    a == b || (am == 0 && bm == 0)
}

} // verus!
