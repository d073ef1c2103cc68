use biquad::Binary64;

fn b(x: f64) -> Binary64 {
    Binary64::from_bits(x.to_bits())
}

fn agrees(ours: Binary64, native: f64) -> bool {
    if native.is_nan() {
        ours.is_nan()
    } else {
        ours.to_bits() == native.to_bits()
    }
}

fn check_pair(x: f64, y: f64) {
    assert!(agrees(b(x).add(b(y)), x + y), "{:e} + {:e}", x, y);
    assert!(agrees(b(x).sub(b(y)), x - y), "{:e} - {:e}", x, y);
    assert!(agrees(b(x).mul(b(y)), x * y), "{:e} * {:e}", x, y);
}

fn next(state: &mut u64) -> u64 {
    *state ^= *state << 13;
    *state ^= *state >> 7;
    *state ^= *state << 17;
    *state
}

fn landmarks() -> Vec<f64> {
    vec![
        0.0,
        -0.0,
        1.0,
        -1.0,
        0.5,
        2.0,
        3.0,
        0.1,
        0.2,
        0.3,
        1.0e-300,
        1.0e300,
        -1.0e300,
        1.0e-160,
        1.0e160,
        f64::MAX,
        -f64::MAX,
        f64::MIN_POSITIVE,
        -f64::MIN_POSITIVE,
        f64::EPSILON,
        1.0 + f64::EPSILON,
        1.0 - f64::EPSILON / 2.0,
        f64::from_bits(1),
        f64::from_bits(2),
        f64::from_bits(3),
        f64::from_bits(0x8000_0000_0000_0001),
        f64::from_bits(0x000f_ffff_ffff_ffff),
        f64::from_bits(0x0010_0000_0000_0001),
        f64::from_bits(0x7fef_ffff_ffff_fffe),
        f64::from_bits(0x7fe0_0000_0000_0000),
        f64::from_bits(0x3ca0_0000_0000_0000),
        f64::from_bits(0x3c90_0000_0000_0000),
        f64::from_bits(0x3c90_0000_0000_0001),
        f64::from_bits(0x4340_0000_0000_0000),
        f64::from_bits(0x433f_ffff_ffff_ffff),
        f64::from_bits(0x1ff0_0000_0000_0000),
        f64::from_bits(0x2000_0000_0000_0001),
        f64::from_bits(0x1e60_0000_0000_0000),
        f64::from_bits(0x1e5f_ffff_ffff_ffff),
        f64::INFINITY,
        f64::NEG_INFINITY,
        f64::NAN,
    ]
}

#[test]
fn landmark_values_agree_with_hardware() {
    let values = landmarks();
    for &x in values.iter() {
        for &y in values.iter() {
            check_pair(x, y);
        }
    }
}

#[test]
fn random_bit_patterns_agree_with_hardware() {
    let mut state: u64 = 0x9e37_79b9_7f4a_7c15;
    for _ in 0..40000 {
        let x = f64::from_bits(next(&mut state));
        let y = f64::from_bits(next(&mut state));
        check_pair(x, y);
    }
}

#[test]
fn nearby_exponents_agree_with_hardware() {
    let mut state: u64 = 0x2545_f491_4f6c_dd1d;
    for _ in 0..40000 {
        let xb = next(&mut state);
        let x = f64::from_bits(xb);
        let exponent = (xb >> 52) & 0x7ff;
        let shift = next(&mut state) % 130;
        let other = (exponent + shift).saturating_sub(65).min(0x7ff);
        let yb = (next(&mut state) & 0x800f_ffff_ffff_ffff) | (other << 52);
        let y = f64::from_bits(yb);
        check_pair(x, y);
        check_pair(y, x);
    }
}

#[test]
fn products_near_the_subnormal_range_agree_with_hardware() {
    let mut state: u64 = 0x0123_4567_89ab_cdef;
    for _ in 0..40000 {
        let xb = next(&mut state) & 0x800f_ffff_ffff_ffff;
        let yb = next(&mut state) & 0x800f_ffff_ffff_ffff;
        let ex = next(&mut state) % 0x7ff;
        let spread = next(&mut state) % 120;
        let ey = (1023 + 60 + 1023 - 1074) as u64;
        let ey = (ey + spread).saturating_sub(ex).min(0x7fe);
        let x = f64::from_bits(xb | (ex << 52));
        let y = f64::from_bits(yb | (ey << 52));
        check_pair(x, y);
    }
}

#[test]
fn products_near_overflow_agree_with_hardware() {
    let mut state: u64 = 0xfeed_face_cafe_beef;
    for _ in 0..40000 {
        let xb = next(&mut state) & 0x800f_ffff_ffff_ffff;
        let yb = next(&mut state) & 0x800f_ffff_ffff_ffff;
        let ex = 1 + next(&mut state) % 0x7fe;
        let spread = next(&mut state) % 8;
        let ey = (1023 + 1023 + 1020 + spread).saturating_sub(ex).min(0x7fe);
        let x = f64::from_bits(xb | (ex << 52));
        let y = f64::from_bits(yb | (ey << 52));
        check_pair(x, y);
    }
}

#[test]
fn subnormal_sums_agree_with_hardware() {
    let mut state: u64 = 0x0bad_c0de_0bad_c0de;
    for _ in 0..40000 {
        let x = f64::from_bits(next(&mut state) & 0x801f_ffff_ffff_ffff);
        let y = f64::from_bits(next(&mut state) & 0x802f_ffff_ffff_ffff);
        check_pair(x, y);
    }
}

#[test]
fn a_tie_goes_to_the_even_neighbour() {
    // 2^53 + 1 lies halfway between 2^53 and 2^53 + 2.
    let big = 9007199254740992.0_f64;
    assert_eq!(b(big).add(b(1.0)).to_bits(), big.to_bits());
    // 2^53 + 3 lies halfway between 2^53 + 2 and 2^53 + 4.
    assert_eq!(b(big + 2.0).add(b(1.0)).to_bits(), (big + 4.0).to_bits());
    // Half of the smallest subnormal is a tie between zero and it.
    assert_eq!(b(f64::from_bits(1)).mul(b(0.5)).to_bits(), 0);
    assert_eq!(b(f64::from_bits(3)).mul(b(0.5)).to_bits(), 2);
}

#[test]
fn overflow_gives_infinity() {
    assert_eq!(b(f64::MAX).add(b(f64::MAX)).to_bits(), f64::INFINITY.to_bits());
    assert_eq!(b(-f64::MAX).sub(b(f64::MAX)).to_bits(), f64::NEG_INFINITY.to_bits());
    assert_eq!(b(1.0e200).mul(b(-1.0e200)).to_bits(), f64::NEG_INFINITY.to_bits());
    // Less than half a unit in the last place above the largest value rounds back.
    assert_eq!(b(f64::MAX).add(b(1.0e291)).to_bits(), f64::MAX.to_bits());
}

#[test]
fn invalid_operations_give_the_quiet_nan() {
    let nan = 0x7ff8_0000_0000_0000_u64;
    assert_eq!(b(f64::INFINITY).add(b(f64::NEG_INFINITY)).to_bits(), nan);
    assert_eq!(b(f64::INFINITY).sub(b(f64::INFINITY)).to_bits(), nan);
    assert_eq!(b(0.0).mul(b(f64::INFINITY)).to_bits(), nan);
    assert_eq!(b(f64::NEG_INFINITY).mul(b(-0.0)).to_bits(), nan);
    assert_eq!(Binary64::from_bits(0xfff0_0000_0000_0001).add(b(1.0)).to_bits(), nan);
    assert_eq!(b(1.0).mul(Binary64::from_bits(0x7ff0_0000_0000_0001)).to_bits(), nan);
}

#[test]
fn zeros_keep_their_signs() {
    let minus_zero = (-0.0_f64).to_bits();
    assert_eq!(b(0.0).add(b(-0.0)).to_bits(), 0);
    assert_eq!(b(-0.0).add(b(-0.0)).to_bits(), minus_zero);
    assert_eq!(b(1.5).sub(b(1.5)).to_bits(), 0);
    assert_eq!(b(-0.0).sub(b(0.0)).to_bits(), minus_zero);
    assert_eq!(b(-2.0).mul(b(0.0)).to_bits(), minus_zero);
    assert_eq!(b(-2.0).mul(b(-0.0)).to_bits(), 0);
}

#[test]
fn classification_reads_the_bit_pattern() {
    assert!(b(f64::NAN).is_nan());
    assert!(!b(f64::INFINITY).is_nan());
    assert!(b(f64::NEG_INFINITY).is_infinite());
    assert!(!b(f64::MAX).is_infinite());
    assert!(b(f64::MAX).is_finite());
    assert!(!b(f64::INFINITY).is_finite());
    assert!(!b(f64::NAN).is_finite());
    assert!(b(-0.0).is_zero());
    assert!(!b(f64::from_bits(1)).is_zero());
    assert!(b(-0.0).is_sign_negative());
    assert!(!b(0.0).is_sign_negative());
    assert_eq!(b(-3.5).abs_bits(), 3.5_f64.to_bits());
    assert_eq!(b(3.5).neg().to_bits(), (-3.5_f64).to_bits());
    assert_eq!(b(-0.0).neg().to_bits(), 0);
}

#[test]
fn decode_splits_significand_and_scale() {
    assert_eq!(b(1.0).decode(), (1 << 52, 1022));
    assert_eq!(b(-1.5).decode(), (3 << 51, 1022));
    assert_eq!(b(f64::from_bits(5)).decode(), (5, 0));
    assert_eq!(b(f64::MIN_POSITIVE).decode(), (1 << 52, 0));
    assert_eq!(b(f64::MAX).decode(), ((1 << 53) - 1, 2045));
    assert_eq!(Binary64::compose(true, 0x3ff0_0000_0000_0000).to_bits(), (-1.0_f64).to_bits());
}

#[test]
fn powers_of_two_and_bit_lengths() {
    assert_eq!(biquad::digits::pow2_u128(0), 1);
    assert_eq!(biquad::digits::pow2_u128(1), 2);
    assert_eq!(biquad::digits::pow2_u128(52), 1 << 52);
    assert_eq!(biquad::digits::pow2_u128(127), 1 << 127);
    assert_eq!(biquad::digits::bit_length_u128(0), 0);
    assert_eq!(biquad::digits::bit_length_u128(1), 1);
    assert_eq!(biquad::digits::bit_length_u128(255), 8);
    assert_eq!(biquad::digits::bit_length_u128(256), 9);
    assert_eq!(biquad::digits::bit_length_u128(u128::MAX), 128);
}

#[test]
fn rounding_whole_numbers_of_quanta() {
    let round = biquad::rounding::round_to_bits;
    assert_eq!(round(1, 0), 1);
    assert_eq!(round(1 << 52, 0), 1 << 52);
    assert_eq!(round(1, 1074), 1.0_f64.to_bits());
    assert_eq!(round(3, 1073), 1.5_f64.to_bits());
    assert_eq!(round(5, 1074), 5.0_f64.to_bits());
    // 1.5 quanta and 0.5 quanta are ties; 2.5 quanta is one as well.
    assert_eq!(round(3, -1), 2);
    assert_eq!(round(1, -1), 0);
    assert_eq!(round(5, -1), 2);
    assert_eq!(round(7, -2), 2);
    assert_eq!(round(1, -2000), 0);
    // 2^53 + 1 needs 54 digits: a tie that goes down. 2^53 + 3 goes up, to
    // 2^53 + 4 quanta, which is the significand 2^52 + 2 at scale 1.
    assert_eq!(round((1 << 53) + 1, 1021), 1.0_f64.to_bits());
    assert_eq!(round((1 << 53) + 3, 0), (1 << 53) + 2);
    // The largest finite value, and the midpoint above it.
    assert_eq!(round((1 << 53) - 1, 2045), f64::MAX.to_bits());
    assert_eq!(round((1 << 54) - 1, 2044), f64::INFINITY.to_bits());
    assert_eq!(round((1 << 55) - 3, 2043), f64::MAX.to_bits());
    assert_eq!(round(1, 2098), f64::INFINITY.to_bits());
    assert_eq!(round(1, 60000), f64::INFINITY.to_bits());
}
