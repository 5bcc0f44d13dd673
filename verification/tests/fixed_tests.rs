use raytracer::fixed::{Fixed, LIMIT, SCALE};

fn fx(v: f64) -> Fixed {
    Fixed::from_raw((v * 1e9).round() as i64)
}

#[test]
fn from_int_scales_by_one() {
    assert_eq!(Fixed::from_int(3).raw(), 3 * SCALE);
    assert_eq!(Fixed::from_int(-7).raw(), -7 * SCALE);
    assert_eq!(Fixed::one().raw(), SCALE);
    assert_eq!(Fixed::zero().raw(), 0);
}

#[test]
fn from_raw_clamps_to_the_range() {
    assert_eq!(Fixed::from_raw(i64::MAX).raw(), LIMIT);
    assert_eq!(Fixed::from_raw(i64::MIN).raw(), -LIMIT);
    assert_eq!(Fixed::from_raw(LIMIT).raw(), LIMIT);
    assert_eq!(Fixed::from_raw(12345).raw(), 12345);
    assert_eq!(Fixed::from_int(i64::MAX).raw(), LIMIT);
    assert_eq!(Fixed::max_value().raw(), LIMIT);
}

#[test]
fn add_and_sub_are_exact_within_the_range() {
    assert_eq!(fx(1.5).add(fx(2.25)), fx(3.75));
    assert_eq!(fx(1.5).sub(fx(2.25)), fx(-0.75));
    assert_eq!(fx(-1.5).neg(), fx(1.5));
    assert_eq!(fx(-1.5).abs(), fx(1.5));
    assert_eq!(fx(1.5).abs(), fx(1.5));
}

#[test]
fn add_and_sub_saturate() {
    let top = Fixed::max_value();
    assert_eq!(top.add(top), top);
    assert_eq!(top.add(Fixed::one()), top);
    assert_eq!(top.neg().sub(top), top.neg());
    assert_eq!(top.neg().raw(), -LIMIT);
}

#[test]
fn mul_is_exact_on_short_decimals() {
    assert_eq!(fx(1.5).mul(fx(-2.5)), fx(-3.75));
    assert_eq!(fx(0.5).mul(fx(0.5)), fx(0.25));
    assert_eq!(Fixed::from_int(1000).mul(Fixed::from_int(1000)), Fixed::from_int(1_000_000));
}

#[test]
fn mul_rounds_toward_zero() {
    assert_eq!(Fixed::from_raw(7).mul(fx(0.5)).raw(), 3);
    assert_eq!(Fixed::from_raw(-7).mul(fx(0.5)).raw(), -3);
    assert_eq!(Fixed::from_raw(1).mul(Fixed::from_raw(1)).raw(), 0);
}

#[test]
fn mul_saturates() {
    let big = Fixed::from_int(3_000_000_000);
    assert_eq!(big.mul(big).raw(), LIMIT);
    assert_eq!(big.mul(big.neg()).raw(), -LIMIT);
}

#[test]
fn div_rounds_toward_zero() {
    assert_eq!(Fixed::one().div(Fixed::from_int(3)).raw(), 333_333_333);
    assert_eq!(Fixed::one().neg().div(Fixed::from_int(3)).raw(), -333_333_333);
    assert_eq!(Fixed::one().div(Fixed::from_int(-3)).raw(), -333_333_333);
    assert_eq!(fx(-7.5).div(fx(-2.5)), fx(3.0));
}

#[test]
fn div_by_zero_saturates() {
    let zero = Fixed::zero();
    assert_eq!(Fixed::one().div(zero).raw(), LIMIT);
    assert_eq!(Fixed::one().neg().div(zero).raw(), -LIMIT);
    assert_eq!(zero.div(zero).raw(), 0);
}

#[test]
fn div_saturates() {
    assert_eq!(Fixed::from_int(1_000_000).div(Fixed::from_raw(1)).raw(), LIMIT);
    assert_eq!(Fixed::from_int(-1_000_000).div(Fixed::from_raw(1)).raw(), -LIMIT);
}

#[test]
fn sqrt_rounds_down() {
    assert_eq!(Fixed::from_int(4).sqrt(), Fixed::from_int(2));
    assert_eq!(Fixed::from_int(2).sqrt().raw(), 1_414_213_562);
    assert_eq!(Fixed::from_int(3).sqrt().raw(), 1_732_050_807);
    assert_eq!(fx(0.64).sqrt(), fx(0.8));
    assert_eq!(Fixed::zero().sqrt(), Fixed::zero());
}

#[test]
fn sqrt_of_a_negative_number_is_zero() {
    assert_eq!(Fixed::from_int(-4).sqrt(), Fixed::zero());
    assert_eq!(Fixed::from_raw(-1).sqrt(), Fixed::zero());
}

#[test]
fn sqrt_of_the_largest_number() {
    let root = Fixed::max_value().sqrt().raw() as i128;
    let n = (LIMIT as i128) * (SCALE as i128);
    assert!(root * root <= n);
    assert!((root + 1) * (root + 1) > n);
}

#[test]
fn powi_multiplies_step_by_step() {
    assert_eq!(Fixed::from_int(2).powi(10), Fixed::from_int(1024));
    assert_eq!(fx(0.5).powi(5), fx(0.03125));
    assert_eq!(fx(0.5).powi(0), Fixed::one());
    assert_eq!(Fixed::from_int(-2).powi(3), Fixed::from_int(-8));
}

#[test]
fn comparisons_follow_the_raw_units() {
    assert!(fx(1.0).lt(fx(1.000000001)));
    assert!(!fx(1.0).lt(fx(1.0)));
    assert!(fx(1.0).le(fx(1.0)));
    assert!(fx(2.0).gt(fx(1.0)));
    assert!(Fixed::zero().is_zero());
    assert!(!Fixed::from_raw(1).is_zero());
    assert!(Fixed::from_raw(-1).is_negative());
    assert!(!Fixed::zero().is_negative());
    assert_eq!(fx(1.0).min(fx(2.0)), fx(1.0));
    assert_eq!(fx(1.0).max(fx(2.0)), fx(2.0));
}

#[test]
fn to_radians_of_a_straight_angle_is_pi() {
    assert_eq!(Fixed::from_int(180).to_radians().raw(), 3_141_592_654);
    assert_eq!(Fixed::from_int(90).to_radians().raw(), 1_570_796_327);
    assert_eq!(Fixed::zero().to_radians(), Fixed::zero());
}

#[test]
fn sine_and_cosine_agree_with_the_float_functions() {
    let mut deg = -90;
    while deg <= 90 {
        let x = Fixed::from_int(deg).to_radians();
        let xf = x.raw() as f64 / 1e9;
        let s = x.sin().raw() as f64 / 1e9;
        let c = x.cos().raw() as f64 / 1e9;
        assert!((s - xf.sin()).abs() < 1e-7, "sin {} gave {}", deg, s);
        assert!((c - xf.cos()).abs() < 1e-7, "cos {} gave {}", deg, c);
        deg += 5;
    }
}

#[test]
fn sine_and_cosine_at_zero() {
    assert_eq!(Fixed::zero().sin(), Fixed::zero());
    assert_eq!(Fixed::zero().cos(), Fixed::one());
    assert_eq!(Fixed::zero().tan(), Fixed::zero());
}

#[test]
fn tangent_agrees_with_the_float_function() {
    let mut deg = -80;
    while deg <= 80 {
        let x = Fixed::from_int(deg).to_radians();
        let xf = x.raw() as f64 / 1e9;
        let t = x.tan().raw() as f64 / 1e9;
        assert!((t - xf.tan()).abs() < 1e-6, "tan {} gave {}", deg, t);
        deg += 5;
    }
}

#[test]
fn tangent_of_half_a_right_angle_is_one() {
    let t = Fixed::from_int(45).to_radians().tan().raw();
    assert!((t - SCALE).abs() <= 5, "tan 45 gave {}", t);
}
