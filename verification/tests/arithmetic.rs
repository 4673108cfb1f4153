//! The integer arithmetic on bit patterns against the machine's own
//! single-precision arithmetic.
use proximity::arith;
use proximity::binary32::CANONICAL_NAN;
use proximity::root;

/// A small deterministic generator of 64-bit values.
fn next(state: &mut u64) -> u64 {
    let mut x = *state;
    x ^= x << 13;
    x ^= x >> 7;
    x ^= x << 17;
    *state = x;
    x.wrapping_mul(0x2545_f491_4f6c_dd1d)
}

/// Any pattern at all.
fn any_pattern(state: &mut u64) -> u32 {
    (next(state) >> 32) as u32
}

/// A finite pattern whose exponent field lies within `spread` of `centre`.
fn pattern_near(state: &mut u64, centre: u32, spread: u32) -> u32 {
    let r = next(state);
    let sign = ((r >> 63) as u32) << 31;
    let fraction = (r as u32) & 0x007f_ffff;
    let offset = ((r >> 32) as u32) % (2 * spread + 1);
    let exponent = (centre + offset).saturating_sub(spread).min(254);
    sign | (exponent << 23) | fraction
}

fn agrees(ours: u32, theirs: f32) -> bool {
    if theirs.is_nan() {
        ours == CANONICAL_NAN
    } else {
        ours == theirs.to_bits()
    }
}

fn check_pair(a: u32, b: u32) {
    let fa = f32::from_bits(a);
    let fb = f32::from_bits(b);
    assert!(agrees(arith::add(a, b), fa + fb), "add {:#x} {:#x}", a, b);
    assert!(agrees(arith::sub(a, b), fa - fb), "sub {:#x} {:#x}", a, b);
    assert!(agrees(arith::mul(a, b), fa * fb), "mul {:#x} {:#x}", a, b);
    assert_eq!(arith::le(a, b), fa <= fb, "le {:#x} {:#x}", a, b);
    assert_eq!(arith::eq(a, b), fa == fb, "eq {:#x} {:#x}", a, b);
}

fn check_root(a: u32) {
    assert!(agrees(root::sqrt(a), f32::from_bits(a).sqrt()), "sqrt {:#x}", a);
}

fn special_patterns() -> Vec<u32> {
    let mut all = vec![
        0x0000_0000, 0x0000_0001, 0x0000_0002, 0x0000_0003, 0x0040_0000, 0x007f_fffe,
        0x007f_ffff, 0x0080_0000, 0x0080_0001, 0x00ff_ffff, 0x0100_0000, 0x0c00_0000,
        0x1f80_0000, 0x2000_0000, 0x3300_0000, 0x3380_0000, 0x3400_0000, 0x3e05_1eb8,
        0x3f00_0000, 0x3f7f_ffff, 0x3f80_0000, 0x3f80_0001, 0x3fc0_0000, 0x4000_0000,
        0x4040_0000, 0x4049_0fdb, 0x40a0_0000, 0x41c8_0000, 0x42c4_e666, 0x4302_1eb8,
        0x4334_2666, 0x4339_2666, 0x4348_2666, 0x43fa_0f5c, 0x447a_0000, 0x4b00_0000,
        0x4b7f_ffff, 0x4b80_0000, 0x5f00_0000, 0x5f80_0000, 0x7e80_0000, 0x7f00_0000,
        0x7f7f_fffe, 0x7f7f_ffff, 0x7f80_0000, 0x7f80_0001, 0x7fc0_0000, 0x7fff_ffff,
    ];
    let n = all.len();
    for i in 0..n {
        all.push(all[i] | 0x8000_0000);
    }
    all
}

#[test]
fn special_values_agree_with_the_machine() {
    let all = special_patterns();
    for &a in all.iter() {
        check_root(a);
        for &b in all.iter() {
            check_pair(a, b);
        }
    }
}

#[test]
fn arbitrary_patterns_agree_with_the_machine() {
    let mut state: u64 = 0x9e37_79b9_7f4a_7c15;
    for _ in 0..200_000 {
        let a = any_pattern(&mut state);
        let b = any_pattern(&mut state);
        check_pair(a, b);
    }
}

#[test]
fn neighbouring_magnitudes_agree_with_the_machine() {
    let mut state: u64 = 0x1234_5678_9abc_def1;
    for round in 0..200_000u32 {
        let centre = round % 255;
        let a = pattern_near(&mut state, centre, 0);
        let b = pattern_near(&mut state, centre, 3);
        check_pair(a, b);
    }
}

#[test]
fn distant_magnitudes_agree_with_the_machine() {
    let mut state: u64 = 0x0fed_cba9_8765_4321;
    for round in 0..200_000u32 {
        let centre = 40 + round % 180;
        let a = pattern_near(&mut state, centre, 0);
        let b = pattern_near(&mut state, centre, 40);
        check_pair(a, b);
    }
}

#[test]
fn subnormal_results_agree_with_the_machine() {
    let mut state: u64 = 0x0bad_cafe_dead_beef;
    for _ in 0..200_000 {
        let a = pattern_near(&mut state, 1, 1);
        let b = pattern_near(&mut state, 1, 1);
        check_pair(a, b);
        let c = pattern_near(&mut state, 64, 30);
        let d = pattern_near(&mut state, 64, 30);
        check_pair(c, d);
    }
}

#[test]
fn overflowing_results_agree_with_the_machine() {
    let mut state: u64 = 0x5555_aaaa_3333_cccc;
    for _ in 0..200_000 {
        let a = pattern_near(&mut state, 253, 1);
        let b = pattern_near(&mut state, 253, 1);
        check_pair(a, b);
        let c = pattern_near(&mut state, 191, 3);
        let d = pattern_near(&mut state, 191, 3);
        check_pair(c, d);
    }
}

#[test]
fn halfway_cases_agree_with_the_machine() {
    // Sums and products that land exactly between two patterns.
    let mut state: u64 = 0x7777_1111_9999_2222;
    for _ in 0..100_000 {
        let r = next(&mut state);
        let exponent = 30 + ((r >> 40) as u32) % 190;
        let fraction = (r as u32) & 0x007f_ffff;
        let a = (exponent << 23) | fraction;
        // half a unit in the last place of `a`
        let half = (exponent - 24) << 23;
        check_pair(a, half);
        check_pair(a, half | 0x8000_0000);
        check_pair(a | 0x8000_0000, half);
        // a power of two, whose lower neighbour is nearer
        let power = exponent << 23;
        let quarter = (exponent - 25) << 23;
        check_pair(power, quarter | 0x8000_0000);
        check_pair(power, half | 0x8000_0000);
        // an odd significand times one and a half
        check_pair(a | 1, 0x3fc0_0000);
        check_pair(a, 0x3fc0_0000);
    }
}

#[test]
fn roots_of_arbitrary_patterns_agree_with_the_machine() {
    let mut state: u64 = 0x0123_4567_89ab_cdef;
    for _ in 0..400_000 {
        check_root(any_pattern(&mut state) & 0x7fff_ffff);
    }
}

#[test]
fn roots_of_small_patterns_agree_with_the_machine() {
    for a in 0..300_000u32 {
        check_root(a);
        check_root(0x0080_0000 - 150_000 + a);
    }
}

#[test]
fn roots_of_squares_are_exact() {
    let mut state: u64 = 0x2468_ace0_1357_9bdf;
    for _ in 0..100_000 {
        let r = next(&mut state) as u32;
        // a number of at most twelve significant bits, squared exactly
        let x = ((r % 4095) + 1) as f32;
        let square = (x * x).to_bits();
        assert_eq!(root::sqrt(square), x.to_bits());
        assert_eq!(arith::mul(x.to_bits(), x.to_bits()), square);
    }
}

#[test]
fn five_is_the_root_of_twenty_five() {
    assert_eq!(root::sqrt(0x41c8_0000), 0x40a0_0000);
}

#[test]
fn one_plus_one_is_two() {
    assert_eq!(arith::add(0x3f80_0000, 0x3f80_0000), 0x4000_0000);
    assert_eq!(arith::sub(0x4000_0000, 0x3f80_0000), 0x3f80_0000);
    assert_eq!(arith::mul(0x4000_0000, 0x4000_0000), 0x4080_0000);
}

#[test]
fn a_tie_goes_to_the_even_pattern() {
    // 2^24 + 1 lies midway between 2^24 and 2^24 + 2.
    assert_eq!(arith::add(0x4b80_0000, 0x3f80_0000), 0x4b80_0000);
    // 2^24 + 3 lies midway between 2^24 + 2 and 2^24 + 4.
    assert_eq!(arith::add(0x4b80_0001, 0x3f80_0000), 0x4b80_0002);
}

#[test]
fn the_largest_number_overflows_to_infinity() {
    assert_eq!(arith::add(0x7f7f_ffff, 0x7f7f_ffff), 0x7f80_0000);
    assert_eq!(arith::mul(0x7f7f_ffff, 0x4000_0000), 0x7f80_0000);
    // Less than half a unit in the last place above the largest number
    // rounds back to it.
    assert_eq!(arith::add(0x7f7f_ffff, 0x7300_0000 - 1), 0x7f7f_ffff);
    assert_eq!(arith::add(0x7f7f_ffff, 0x7300_0000), 0x7f80_0000);
}

#[test]
fn invalid_operations_give_the_canonical_nan() {
    assert_eq!(arith::sub(0x7f80_0000, 0x7f80_0000), CANONICAL_NAN);
    assert_eq!(arith::add(0x7f80_0000, 0xff80_0000), CANONICAL_NAN);
    assert_eq!(arith::mul(0x7f80_0000, 0x0000_0000), CANONICAL_NAN);
    assert_eq!(arith::mul(0x8000_0000, 0xff80_0000), CANONICAL_NAN);
    assert_eq!(root::sqrt(0xbf80_0000), CANONICAL_NAN);
    assert_eq!(root::sqrt(0xff80_0000), CANONICAL_NAN);
    assert_eq!(arith::add(0x7fa0_0000, 0x3f80_0000), CANONICAL_NAN);
}

#[test]
fn zeros_keep_their_signs() {
    assert_eq!(arith::add(0x8000_0000, 0x8000_0000), 0x8000_0000);
    assert_eq!(arith::add(0x8000_0000, 0x0000_0000), 0x0000_0000);
    assert_eq!(arith::sub(0x3f80_0000, 0x3f80_0000), 0x0000_0000);
    assert_eq!(arith::sub(0x8000_0000, 0x0000_0000), 0x8000_0000);
    assert_eq!(arith::mul(0x8000_0000, 0x3f80_0000), 0x8000_0000);
    assert_eq!(root::sqrt(0x8000_0000), 0x8000_0000);
    assert_eq!(root::sqrt(0x0000_0000), 0x0000_0000);
}

#[test]
fn a_nan_compares_false_with_everything() {
    assert!(!arith::le(CANONICAL_NAN, 0x40a0_0000));
    assert!(!arith::le(0x40a0_0000, CANONICAL_NAN));
    assert!(!arith::le(CANONICAL_NAN, CANONICAL_NAN));
    assert!(!arith::eq(CANONICAL_NAN, CANONICAL_NAN));
    assert!(!arith::le(0xffc0_0000, 0x7f80_0000));
}

#[test]
fn the_two_zeros_are_equal() {
    assert!(arith::le(0x0000_0000, 0x8000_0000));
    assert!(arith::le(0x8000_0000, 0x0000_0000));
    assert!(arith::eq(0x8000_0000, 0x0000_0000));
}

#[test]
fn order_follows_the_sign() {
    assert!(arith::le(0xc0a0_0000, 0x40a0_0000));
    assert!(!arith::le(0x40a0_0000, 0xc0a0_0000));
    assert!(arith::le(0xc0a0_0000, 0xbf80_0000));
    assert!(!arith::le(0xbf80_0000, 0xc0a0_0000));
    assert!(arith::le(0x40a0_0000, 0x40a0_0000));
    assert!(arith::le(0xff80_0000, 0x7f80_0000));
}
