//! The IEEE 754 binary32 format as a mathematical model over bit patterns.
//!
//! A pattern is a `u32`: one sign bit, eight exponent bits, twenty-three
//! fraction bits. Every finite binary32 number is a whole multiple of
//! 2^-149, so the model measures values in that unit and stays within the
//! integers.
use vstd::prelude::*;
use vstd::arithmetic::power2::{pow2, lemma_pow2_pos, lemma_pow2_unfold};

verus! {

/// The sign bit of a pattern.
pub const SIGN_BIT: u32 = 0x8000_0000;

/// The pattern of positive infinity; the largest pattern that is no NaN.
pub const INFINITY: u32 = 0x7f80_0000;

/// The quiet NaN that every invalid operation of this library returns.
pub const CANONICAL_NAN: u32 = 0x7fc0_0000;

/// Two to the twenty-third: the weight of the implicit leading bit.
pub const HIDDEN_BIT: u32 = 0x80_0000;

/// Whether the sign bit is set.
pub open spec fn is_negative(b: u32) -> bool {
    b >= SIGN_BIT
}

/// The pattern with its sign bit cleared.
pub open spec fn abs_bits(b: u32) -> u32 {
    if b >= SIGN_BIT {
        (b - SIGN_BIT) as u32
    } else {
        b
    }
}

/// The pattern with its sign bit flipped.
pub open spec fn negate(b: u32) -> u32 {
    if b >= SIGN_BIT {
        (b - SIGN_BIT) as u32
    } else {
        (b + SIGN_BIT) as u32
    }
}

/// The pattern of magnitude `m` with the given sign.
pub open spec fn with_sign(negative: bool, m: u32) -> u32 {
    if negative && m < SIGN_BIT {
        (m + SIGN_BIT) as u32
    } else {
        m
    }
}

pub open spec fn is_nan(b: u32) -> bool {
    abs_bits(b) > INFINITY
}

pub open spec fn is_infinite(b: u32) -> bool {
    abs_bits(b) == INFINITY
}

/// The exponent field of a magnitude pattern.
pub open spec fn exponent(m: u32) -> nat {
    (m / HIDDEN_BIT) as nat
}

/// The fraction field of a magnitude pattern.
pub open spec fn fraction(m: u32) -> nat {
    (m % HIDDEN_BIT) as nat
}

/// The integer significand: the fraction, with the implicit leading bit
/// unless the number is subnormal.
pub open spec fn significand(m: u32) -> nat {
    if exponent(m) == 0 {
        fraction(m)
    } else {
        fraction(m) + HIDDEN_BIT as nat
    }
}

/// The binary logarithm of what one unit of the significand is worth,
/// counted in units of 2^-149.
pub open spec fn scale(m: u32) -> nat {
    if exponent(m) == 0 {
        0
    } else {
        (exponent(m) - 1) as nat
    }
}

/// The magnitude that a pattern without sign stands for, in units of
/// 2^-149. For the pattern of infinity this is 2^277, the value that the
/// format would give the next binade if it had one.
pub open spec fn magnitude(m: u32) -> nat {
    significand(m) * pow2(scale(m))
}

/// The value of a pattern that is no NaN, in units of 2^-149.
pub open spec fn value(b: u32) -> int {
    if is_negative(b) {
        -(magnitude(abs_bits(b)) as int)
    } else {
        magnitude(abs_bits(b)) as int
    }
}

/// Twice the midpoint between the magnitudes of `m` and of the next
/// pattern.
pub open spec fn twice_midpoint(m: u32) -> int {
    (magnitude(m) + magnitude((m + 1) as u32)) as int
}

/// `m` is the pattern nearest to the non-negative rational `n / d` (in
/// units of 2^-149), a tie going to the pattern with an even last bit.
/// What lies at or beyond the midpoint between the largest finite number
/// and 2^128 goes to infinity.
pub open spec fn nearest_even(n: int, d: int, m: u32) -> bool {
    &&& m <= INFINITY
    &&& (m > 0 ==> {
        let low = twice_midpoint((m - 1) as u32) * d;
        low < 2 * n || (low == 2 * n && m % 2 == 0)
    })
    &&& (m < INFINITY ==> {
        let high = twice_midpoint(m) * d;
        2 * n < high || (2 * n == high && m % 2 == 0)
    })
}

/// The pattern that `n / d` rounds to.
pub open spec fn round_nearest_even(n: int, d: int) -> u32 {
    choose|m: u32| nearest_even(n, d, m)
}

/// The pattern with exponent field `s + 1` (or a subnormal, for `s == 0`
/// and a small `q`) and significand `q`.
pub open spec fn pack(s: nat, q: nat) -> nat {
    s * (HIDDEN_BIT as nat) + q
}

/// A packed pattern stands for `q * 2^s`.
pub proof fn lemma_pack(s: nat, q: nat)
    requires
        s <= 253,
        q <= 2 * HIDDEN_BIT,
        s == 0 || q >= HIDDEN_BIT,
    ensures
        pack(s, q) <= INFINITY,
        magnitude(pack(s, q) as u32) == q * pow2(s),
        q < 2 * HIDDEN_BIT ==> scale(pack(s, q) as u32) == s && pack(s, q) < INFINITY
            && significand(pack(s, q) as u32) == q,
{
    let m = pack(s, q) as u32;
    assert(pow2(0) == 1) by {
        vstd::arithmetic::power2::lemma2_to64();
    }
    if q < HIDDEN_BIT {
        assert(m == q);
        assert(exponent(m) == 0);
        assert(q * pow2(0) == q);
    } else if q < 2 * HIDDEN_BIT {
        assert(m == (s + 1) * HIDDEN_BIT + (q - HIDDEN_BIT));
        assert(exponent(m) == s + 1);
        assert(fraction(m) == q - HIDDEN_BIT);
    } else {
        assert(m == (s + 2) * HIDDEN_BIT);
        assert(exponent(m) == s + 2);
        assert(fraction(m) == 0);
        lemma_pow2_unfold(s + 1);
        assert(scale(m) == s + 1);
        assert(HIDDEN_BIT * (2 * pow2(s)) == (2 * HIDDEN_BIT) * pow2(s)) by (nonlinear_arith);
    }
}

/// The pattern of zero stands for zero.
pub proof fn lemma_magnitude_zero()
    ensures
        magnitude(0) == 0,
{
    let p = pow2(0);
    assert(0 * p == 0) by (nonlinear_arith);
}

/// Every pattern up to infinity is the packing of its scale and its
/// significand.
pub proof fn lemma_unpack(m: u32)
    requires
        m <= INFINITY,
    ensures
        m == pack(scale(m), significand(m)),
        scale(m) <= 254,
        significand(m) < 2 * HIDDEN_BIT,
        scale(m) == 0 || significand(m) >= HIDDEN_BIT,
{
}

/// From one pattern to the next the magnitude grows by one unit of the
/// significand.
pub proof fn lemma_step(m: u32)
    requires
        m < INFINITY,
    ensures
        magnitude((m + 1) as u32) == magnitude(m) + pow2(scale(m)),
        pow2(scale(m)) > 0,
{
    lemma_unpack(m);
    let s = scale(m);
    let q = significand(m);
    lemma_pow2_pos(s);
    assert(s <= 253);
    lemma_pack(s, q + 1);
    assert(pack(s, q + 1) == m + 1);
    assert((q + 1) * pow2(s) == q * pow2(s) + pow2(s)) by (nonlinear_arith);
}

/// A larger pattern stands for a larger magnitude.
pub proof fn lemma_magnitude_increasing(a: u32, b: u32)
    requires
        a < b <= INFINITY,
    ensures
        magnitude(a) < magnitude(b),
    decreases b - a,
{
    lemma_step((b - 1) as u32);
    if a < b - 1 {
        lemma_magnitude_increasing(a, (b - 1) as u32);
    }
}

/// Midpoints grow with the pattern too.
pub proof fn lemma_midpoint_increasing(a: u32, b: u32)
    requires
        a < b < INFINITY,
    ensures
        twice_midpoint(a) < twice_midpoint(b),
{
    lemma_magnitude_increasing(a, b);
    lemma_magnitude_increasing((a + 1) as u32, (b + 1) as u32);
}

/// At most one pattern is nearest to a given rational.
pub proof fn lemma_nearest_even_unique(n: int, d: int, m1: u32, m2: u32)
    requires
        d > 0,
        nearest_even(n, d, m1),
        nearest_even(n, d, m2),
    ensures
        m1 == m2,
{
    lemma_nearest_not_below(n, d, m1, m2);
    lemma_nearest_not_below(n, d, m2, m1);
}

proof fn lemma_nearest_not_below(n: int, d: int, m1: u32, m2: u32)
    requires
        d > 0,
        nearest_even(n, d, m1),
        nearest_even(n, d, m2),
    ensures
        m1 >= m2,
{
    if m1 < m2 {
        let hi = twice_midpoint(m1);
        let lo = twice_midpoint((m2 - 1) as u32);
        if m1 < m2 - 1 {
            lemma_midpoint_increasing(m1, (m2 - 1) as u32);
            assert(hi * d < lo * d) by (nonlinear_arith)
                requires
                    hi < lo,
                    d > 0,
            ;
        }
    }
}

/// Scaling numerator and denominator alike does not change what a rational
/// rounds to.
pub proof fn lemma_nearest_even_scaled(n: int, d: int, c: int, m: u32)
    requires
        c > 0,
    ensures
        nearest_even(n * c, d * c, m) == nearest_even(n, d, m),
{
    if m <= INFINITY {
        if m > 0 {
            let t = twice_midpoint((m - 1) as u32);
            lemma_scaled_order(t * d, 2 * n, c);
            assert(t * (d * c) == (t * d) * c) by (nonlinear_arith);
            assert(2 * (n * c) == (2 * n) * c) by (nonlinear_arith);
        }
        if m < INFINITY {
            let t = twice_midpoint(m);
            lemma_scaled_order(t * d, 2 * n, c);
            assert(t * (d * c) == (t * d) * c) by (nonlinear_arith);
            assert(2 * (n * c) == (2 * n) * c) by (nonlinear_arith);
        }
    }
}

proof fn lemma_scaled_order(x: int, y: int, c: int)
    by (nonlinear_arith)
    requires
        c > 0,
    ensures
        (x * c < y * c) == (x < y),
        (x * c == y * c) == (x == y),
{
}

/// Where `n / d` lies between the magnitude of `m` and that of the next
/// pattern, it rounds to the nearer of the two, and to the even one from
/// the middle.
pub proof fn lemma_round_between(n: int, d: int, m: u32, rest: int, unit: int)
    requires
        d > 0,
        m < INFINITY,
        n == magnitude(m) * d + rest,
        unit == pow2(scale(m)) * d,
        0 <= rest < unit,
    ensures
        2 * rest < unit ==> nearest_even(n, d, m),
        2 * rest > unit ==> nearest_even(n, d, (m + 1) as u32),
        2 * rest == unit ==> nearest_even(n, d, if m % 2 == 0 { m } else { (m + 1) as u32 }),
{
    let mag = magnitude(m) as int;
    let p = pow2(scale(m)) as int;
    lemma_step(m);
    assert(twice_midpoint(m) * d == 2 * (mag * d) + unit) by (nonlinear_arith)
        requires
            twice_midpoint(m) == 2 * mag + p,
            unit == p * d,
    ;
    if m > 0 {
        let below = (m - 1) as u32;
        lemma_step(below);
        let pb = pow2(scale(below)) as int;
        assert(twice_midpoint(below) * d < 2 * (mag * d)) by (nonlinear_arith)
            requires
                twice_midpoint(below) == 2 * mag - pb,
                pb > 0,
                d > 0,
        ;
    }
    if m + 1 < INFINITY {
        let above = (m + 1) as u32;
        lemma_step(above);
        let pa = pow2(scale(above)) as int;
        assert(twice_midpoint(above) * d > 2 * (mag * d) + 2 * unit) by (nonlinear_arith)
            requires
                twice_midpoint(above) == 2 * (mag + p) + pa,
                unit == p * d,
                pa > 0,
                d > 0,
        ;
    }
}

} // verus!
