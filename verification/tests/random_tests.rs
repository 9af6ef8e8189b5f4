use path_tracer::random::random_scalar;
use path_tracer::scalar::Scalar;

#[test]
fn random_scalar_stays_in_its_range() {
    let lo = Scalar::from_raw(-200_000_000);
    let hi = Scalar::from_raw(200_000_000);
    let mut k = 0;
    while k < 1000 {
        let s = random_scalar(lo, hi);
        assert!(lo.raw <= s.raw && s.raw < hi.raw);
        k += 1;
    }
}

#[test]
fn random_scalar_of_one_value_is_that_value() {
    let lo = Scalar::from_raw(41);
    let hi = Scalar::from_raw(42);
    assert_eq!(random_scalar(lo, hi), lo);
}

#[test]
fn random_scalar_varies_and_fills_its_range() {
    let lo = Scalar::from_raw(0);
    let hi = Scalar::from_raw(1_000_000_000);
    let mut below = 0;
    let mut above = 0;
    let mut k = 0;
    while k < 2000 {
        let s = random_scalar(lo, hi);
        if s.raw < 500_000_000 {
            below += 1;
        } else {
            above += 1;
        }
        k += 1;
    }
    assert!(below > 800 && above > 800, "{below} below, {above} above");
}
