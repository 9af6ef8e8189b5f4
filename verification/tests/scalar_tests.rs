use path_tracer::scalar::{Scalar, SCALE};

fn sc(x: f64) -> Scalar {
    Scalar::from_raw((x * SCALE as f64).round() as i64)
}

#[test]
fn add_is_exact_in_range() {
    assert_eq!(sc(1.5).add(sc(2.25)), sc(3.75));
    assert_eq!(sc(-1.5).add(sc(1.5)), sc(0.0));
}

#[test]
fn add_saturates_at_both_ends() {
    let max = Scalar::from_raw(i64::MAX);
    let min = Scalar::from_raw(i64::MIN);
    assert_eq!(max.add(sc(1.0)), max);
    assert_eq!(min.add(sc(-1.0)), min);
    assert_eq!(max.add(min), Scalar::from_raw(-1));
}

#[test]
fn sub_is_exact_in_range_and_saturates() {
    assert_eq!(sc(1.5).sub(sc(2.25)), sc(-0.75));
    let max = Scalar::from_raw(i64::MAX);
    let min = Scalar::from_raw(i64::MIN);
    assert_eq!(min.sub(sc(1.0)), min);
    assert_eq!(max.sub(sc(-1.0)), max);
}

#[test]
fn neg_of_the_smallest_is_the_largest() {
    assert_eq!(sc(2.5).neg(), sc(-2.5));
    assert_eq!(Scalar::from_raw(i64::MIN).neg(), Scalar::from_raw(i64::MAX));
}

#[test]
fn mul_rounds_down() {
    assert_eq!(Scalar::from_raw(1).mul(Scalar::from_raw(1)), Scalar::from_raw(0));
    assert_eq!(Scalar::from_raw(-1).mul(Scalar::from_raw(1)), Scalar::from_raw(-1));
    assert_eq!(sc(1.5).mul(sc(-2.0)), sc(-3.0));
    assert_eq!(sc(0.1).mul(sc(0.1)), sc(0.01));
}

#[test]
fn mul_saturates() {
    let big = sc(1.0e9);
    assert_eq!(big.mul(big), Scalar::from_raw(i64::MAX));
    assert_eq!(big.mul(big.neg()), Scalar::from_raw(i64::MIN));
}

#[test]
fn div_rounds_down() {
    assert_eq!(sc(1.0).div(sc(3.0)), Scalar::from_raw(333_333_333));
    assert_eq!(sc(-1.0).div(sc(3.0)), Scalar::from_raw(-333_333_334));
    assert_eq!(sc(1.0).div(sc(-3.0)), Scalar::from_raw(-333_333_334));
    assert_eq!(sc(-1.0).div(sc(-3.0)), Scalar::from_raw(333_333_333));
    assert_eq!(sc(7.5).div(sc(2.5)), sc(3.0));
}

#[test]
fn div_by_zero_saturates_by_sign() {
    let zero = sc(0.0);
    assert_eq!(sc(1.0).div(zero), Scalar::from_raw(i64::MAX));
    assert_eq!(sc(-1.0).div(zero), Scalar::from_raw(i64::MIN));
    assert_eq!(zero.div(zero), zero);
}

#[test]
fn sqrt_rounds_down() {
    assert_eq!(sc(4.0).sqrt(), sc(2.0));
    assert_eq!(sc(2.0).sqrt(), Scalar::from_raw(1_414_213_562));
    assert_eq!(sc(0.0).sqrt(), sc(0.0));
    assert_eq!(sc(0.25).sqrt(), sc(0.5));
}

#[test]
fn sqrt_of_a_negative_is_zero() {
    assert_eq!(sc(-1.0).sqrt(), sc(0.0));
    assert_eq!(Scalar::from_raw(i64::MIN).sqrt(), sc(0.0));
}

#[test]
fn sqrt_of_the_largest_scalar() {
    let r = Scalar::from_raw(i64::MAX).sqrt();
    let n = i64::MAX as i128 * SCALE as i128;
    let root = r.raw as i128;
    assert!(root * root <= n);
    assert!((root + 1) * (root + 1) > n);
}

#[test]
fn abs_signum_and_max() {
    assert_eq!(sc(-2.0).abs(), sc(2.0));
    assert_eq!(sc(2.0).abs(), sc(2.0));
    assert_eq!(Scalar::from_raw(i64::MIN).abs(), Scalar::from_raw(i64::MAX));
    assert_eq!(sc(-0.5).signum(), sc(-1.0));
    assert_eq!(sc(0.0).signum(), sc(0.0));
    assert_eq!(sc(3.0).signum(), sc(1.0));
    assert_eq!(sc(1.0).max(sc(2.0)), sc(2.0));
    assert_eq!(sc(1.0).max(sc(-2.0)), sc(1.0));
}

#[test]
fn from_int_scales_and_saturates() {
    assert_eq!(Scalar::from_int(3), sc(3.0));
    assert_eq!(Scalar::from_int(-3), sc(-3.0));
    assert_eq!(Scalar::from_int(i64::MAX), Scalar::from_raw(i64::MAX));
    assert_eq!(Scalar::from_int(i64::MIN), Scalar::from_raw(i64::MIN));
}

#[test]
fn mul_away_rounds_away_from_zero() {
    let one = Scalar::from_raw(1);
    assert_eq!(one.mul_away(one), one);
    assert_eq!(one.mul_away(one.neg()), one.neg());
    assert_eq!(one.neg().mul_away(one.neg()), one);
    assert_eq!(one.mul_away(sc(0.0)), sc(0.0));
    assert_eq!(sc(0.0).mul_away(sc(5.0)), sc(0.0));
    assert_eq!(sc(1.5).mul_away(sc(-2.0)), sc(-3.0));
    assert_eq!(sc(0.5).mul_away(sc(0.5)), sc(0.25));
    assert_eq!(Scalar::from_raw(3).mul_away(sc(0.5)), Scalar::from_raw(2));
    assert_eq!(Scalar::from_raw(-3).mul_away(sc(0.5)), Scalar::from_raw(-2));
    let big = sc(1.0e9);
    assert_eq!(big.mul_away(big), Scalar::from_raw(i64::MAX));
    assert_eq!(big.mul_away(big.neg()), Scalar::from_raw(i64::MIN));
}
