use path_tracer::scalar::{Scalar, SCALE};
use path_tracer::trig::PI_RAW;

fn sc(x: f64) -> Scalar {
    Scalar::from_raw((x * SCALE as f64).round() as i64)
}

fn fl(s: Scalar) -> f64 {
    s.raw as f64 / SCALE as f64
}

#[test]
fn sine_and_cosine_of_zero() {
    assert_eq!(sc(0.0).sin(), sc(0.0));
    assert_eq!(sc(0.0).cos(), sc(1.0));
}

#[test]
fn sine_and_cosine_follow_the_real_functions() {
    let mut k = -2000;
    while k <= 2000 {
        let angle = k as f64 * 0.01;
        let s = fl(sc(angle).sin());
        let c = fl(sc(angle).cos());
        assert!((s - angle.sin()).abs() < 2.0e-8, "sin({angle}) = {s}");
        assert!((c - angle.cos()).abs() < 2.0e-8, "cos({angle}) = {c}");
        k += 1;
    }
}

#[test]
fn sine_and_cosine_of_a_quarter_turn() {
    let quarter = sc(std::f64::consts::FRAC_PI_2);
    assert!((fl(quarter.sin()) - 1.0).abs() < 1.0e-8);
    assert!(fl(quarter.cos()).abs() < 1.0e-8);
    let half = Scalar::from_raw(PI_RAW);
    assert!(fl(half.sin()).abs() < 1.0e-8);
    assert!((fl(half.cos()) + 1.0).abs() < 1.0e-8);
}

#[test]
fn tangent_is_sine_over_cosine() {
    let angle = sc(0.5235987756);
    assert_eq!(angle.tan(), angle.sin().div(angle.cos()));
    assert!((fl(angle.tan()) - 0.5773502692).abs() < 1.0e-7);
    assert!((fl(sc(-1.0).tan()) - (-1.0f64).tan()).abs() < 1.0e-7);
}

#[test]
fn degrees_to_radians() {
    assert_eq!(sc(180.0).to_radians(), Scalar::from_raw(PI_RAW));
    assert_eq!(sc(0.0).to_radians(), sc(0.0));
    assert!((fl(sc(60.0).to_radians()) - 1.0471975512).abs() < 1.0e-8);
    assert!((fl(sc(-90.0).to_radians()) + 1.5707963268).abs() < 1.0e-8);
}

#[test]
fn sine_and_cosine_stay_within_one() {
    let mut angles = vec![i64::MIN, i64::MIN + 1, -1, 0, 1, i64::MAX - 1, i64::MAX];
    let mut raw: i64 = -7_000_000_000;
    while raw <= 7_000_000_000 {
        angles.push(raw);
        raw += 1_234_567;
    }
    for raw in angles {
        let angle = Scalar::from_raw(raw);
        let s = angle.sin().raw;
        let c = angle.cos().raw;
        assert!(-SCALE <= s && s <= SCALE, "sin of raw {raw} is raw {s}");
        assert!(-SCALE <= c && c <= SCALE, "cos of raw {raw} is raw {c}");
    }
}

#[test]
fn sine_and_cosine_repeat_after_a_turn() {
    let turn = 6_283_185_307;
    for raw in [0, 1, 500_000_000, 3_000_000_000, -2_000_000_000] {
        let angle = Scalar::from_raw(raw);
        let later = Scalar::from_raw(raw + 3 * turn);
        let earlier = Scalar::from_raw(raw - 5 * turn);
        assert_eq!(angle.sin(), later.sin());
        assert_eq!(angle.cos(), later.cos());
        assert_eq!(angle.sin(), earlier.sin());
        assert_eq!(angle.cos(), earlier.cos());
    }
}
