//! Sine, cosine and tangent of a [`Scalar`] angle in radians.
//!
//! An angle is first reduced to one turn, then to a quarter turn, then to
//! an eighth, where the Taylor polynomials of sine and cosine are evaluated
//! in Horner form. Every step is scalar arithmetic, so the results carry
//! its rounding. What is proved of them is what the contracts state: the
//! formula, that sine and cosine lie between minus one and one, and that
//! they are never both zero. How far they are from the real functions is
//! not proved.

use vstd::prelude::*;
use vstd::arithmetic::div_mod::*;
use crate::scalar::{floor_div, Scalar, SCALE};

verus! {

/// The raw value of pi.
pub const PI_RAW: i64 = 3_141_592_654;

/// The raw value of a full turn, two pi.
pub const TURN_RAW: i64 = 6_283_185_307;

/// The raw value of a quarter turn, half of pi.
pub const QUARTER_TURN_RAW: i64 = 1_570_796_327;

/// The raw value of an eighth of a turn, a quarter of pi.
pub const EIGHTH_TURN_RAW: i64 = 785_398_163;

/// One step of a Taylor polynomial in Horner form: `1 - (y2 / k) * inner`.
pub open spec fn horner(y2: Scalar, k: int, inner: Scalar) -> Scalar {
    Scalar::one().minus(y2.over(Scalar::whole(k)).times(inner))
}

/// The Taylor polynomial of the sine, up to the term in `y^11`.
pub open spec fn sin_poly(y: Scalar) -> Scalar {
    let y2 = y.times(y);
    y.times(
        horner(
            y2,
            6,
            horner(y2, 20, horner(y2, 42, horner(y2, 72, horner(y2, 110, Scalar::one())))),
        ),
    )
}

/// The Taylor polynomial of the cosine, up to the term in `y^10`.
pub open spec fn cos_poly(y: Scalar) -> Scalar {
    let y2 = y.times(y);
    horner(y2, 2, horner(y2, 12, horner(y2, 30, horner(y2, 56, horner(y2, 90, Scalar::one())))))
}

/// The angle reduced to one turn: the raw angle modulo a full turn.
pub open spec fn within_turn(raw: int) -> int {
    raw % (TURN_RAW as int)
}

/// The quarter of the turn, `0` to `3`, in which the reduced angle lies.
pub open spec fn quadrant(raw: int) -> int {
    within_turn(raw) / (QUARTER_TURN_RAW as int)
}

/// The reduced angle measured from the start of its quarter.
pub open spec fn within_quarter(raw: int) -> Scalar {
    Scalar { raw: (within_turn(raw) - quadrant(raw) * QUARTER_TURN_RAW) as i64 }
}

/// The sine of an angle `y` in the first quarter turn.
pub open spec fn sin_quarter(y: Scalar) -> Scalar {
    if y.raw <= EIGHTH_TURN_RAW {
        sin_poly(y)
    } else {
        cos_poly(Scalar { raw: QUARTER_TURN_RAW }.minus(y))
    }
}

/// The cosine of an angle `y` in the first quarter turn.
pub open spec fn cos_quarter(y: Scalar) -> Scalar {
    if y.raw <= EIGHTH_TURN_RAW {
        cos_poly(y)
    } else {
        sin_poly(Scalar { raw: QUARTER_TURN_RAW }.minus(y))
    }
}

/// The reduced angle lies in one of four quarters, and what is left of it
/// within its quarter is less than a quarter turn.
pub proof fn lemma_reduction(raw: int)
    ensures
        0 <= within_turn(raw) < TURN_RAW,
        0 <= quadrant(raw) <= 3,
        0 <= within_turn(raw) - quadrant(raw) * QUARTER_TURN_RAW < QUARTER_TURN_RAW,
        0 <= within_quarter(raw).raw < QUARTER_TURN_RAW,
{
    let rest = within_turn(raw);
    let q = quadrant(raw);
    lemma_mod_bound(raw, TURN_RAW as int);
    lemma_fundamental_div_mod(rest, QUARTER_TURN_RAW as int);
    lemma_mod_bound(rest, QUARTER_TURN_RAW as int);
    assert(q * QUARTER_TURN_RAW == QUARTER_TURN_RAW * q) by (nonlinear_arith);
    assert(0 <= q <= 3) by (nonlinear_arith)
        requires
            0 <= rest < 6_283_185_307,
            rest == 1_570_796_327 * q + (rest % 1_570_796_327),
            0 <= rest % 1_570_796_327 < 1_570_796_327,
    ;
}

/// The product of a scalar that is not negative and a scalar between zero
/// and one lies between zero and the first.
pub proof fn lemma_times_shrinks(a: Scalar, b: Scalar)
    requires
        0 <= a.raw,
        0 <= b.raw <= SCALE,
    ensures
        0 <= a.times(b).raw <= a.raw,
{
    assert(0 <= a.raw * b.raw <= a.raw * SCALE) by (nonlinear_arith)
        requires
            0 <= a.raw,
            0 <= b.raw <= SCALE,
    ;
    lemma_div_pos_is_pos(a.raw * b.raw, SCALE as int);
    lemma_div_is_ordered(a.raw * b.raw, a.raw * SCALE, SCALE as int);
    lemma_div_multiples_vanish(a.raw as int, SCALE as int);
    assert(a.raw * SCALE == SCALE * a.raw) by (nonlinear_arith);
}

/// A scalar that is not negative, divided by a whole number from one to a
/// thousand, lies between zero and itself.
pub proof fn lemma_over_whole_shrinks(a: Scalar, k: int)
    requires
        0 <= a.raw,
        1 <= k <= 1000,
    ensures
        0 <= a.over(Scalar::whole(k)).raw <= a.raw,
{
    let d = k * SCALE;
    assert(SCALE <= d <= 1000 * SCALE) by (nonlinear_arith)
        requires
            d == k * SCALE,
            1 <= k <= 1000,
            SCALE == 1_000_000_000,
    ;
    assert(0 <= a.raw * SCALE) by (nonlinear_arith)
        requires
            0 <= a.raw,
            SCALE == 1_000_000_000,
    ;
    lemma_div_pos_is_pos(a.raw * SCALE, d);
    lemma_div_is_ordered_by_denominator(a.raw * SCALE, SCALE as int, d);
    lemma_div_multiples_vanish(a.raw as int, SCALE as int);
    assert(a.raw * SCALE == SCALE * a.raw) by (nonlinear_arith);
}

/// One step of a Taylor polynomial stays between zero and one on what lies
/// between zero and one.
pub proof fn lemma_horner_range(y2: Scalar, k: int, inner: Scalar)
    requires
        0 <= y2.raw <= SCALE,
        0 <= inner.raw <= SCALE,
        1 <= k <= 1000,
    ensures
        0 <= horner(y2, k, inner).raw <= SCALE,
{
    lemma_over_whole_shrinks(y2, k);
    lemma_times_shrinks(y2.over(Scalar::whole(k)), inner);
}

/// The two Taylor polynomials stay between zero and one on angles between
/// zero and one.
pub proof fn lemma_poly_range(y: Scalar)
    requires
        0 <= y.raw <= SCALE,
    ensures
        0 <= sin_poly(y).raw <= SCALE,
        0 <= cos_poly(y).raw <= SCALE,
{
    let y2 = y.times(y);
    let one = Scalar::one();
    lemma_times_shrinks(y, y);
    lemma_horner_range(y2, 110, one);
    lemma_horner_range(y2, 72, horner(y2, 110, one));
    lemma_horner_range(y2, 42, horner(y2, 72, horner(y2, 110, one)));
    lemma_horner_range(y2, 20, horner(y2, 42, horner(y2, 72, horner(y2, 110, one))));
    let p = horner(y2, 6, horner(y2, 20, horner(y2, 42, horner(y2, 72, horner(y2, 110, one)))));
    lemma_horner_range(y2, 6, horner(y2, 20, horner(y2, 42, horner(y2, 72, horner(y2, 110, one)))));
    lemma_times_shrinks(y, p);
    lemma_horner_range(y2, 90, one);
    lemma_horner_range(y2, 56, horner(y2, 90, one));
    lemma_horner_range(y2, 30, horner(y2, 56, horner(y2, 90, one)));
    lemma_horner_range(y2, 12, horner(y2, 30, horner(y2, 56, horner(y2, 90, one))));
    lemma_horner_range(y2, 2, horner(y2, 12, horner(y2, 30, horner(y2, 56, horner(y2, 90, one)))));
}

/// Half of a scalar that is not negative is at most half of it.
proof fn lemma_over_two_halves(a: Scalar)
    requires
        0 <= a.raw,
    ensures
        0 <= 2 * a.over(Scalar::whole(2)).raw <= a.raw,
{
    let d = 2 * SCALE;
    let n = a.raw * SCALE;
    assert(0 <= n) by (nonlinear_arith)
        requires
            0 <= a.raw,
            n == a.raw * SCALE,
            SCALE == 1_000_000_000,
    ;
    lemma_over_whole_shrinks(a, 2);
    lemma_fundamental_div_mod(n, d);
    lemma_mod_bound(n, d);
    let q = n / d;
    assert(2 * q <= a.raw) by (nonlinear_arith)
        requires
            n == d * q + n % d,
            0 <= n % d,
            n == a.raw * SCALE,
            d == 2 * SCALE,
            SCALE == 1_000_000_000,
    ;
}

/// The cosine's polynomial is at least one half on angles between zero and
/// one.
pub proof fn lemma_cos_poly_large(y: Scalar)
    requires
        0 <= y.raw <= SCALE,
    ensures
        crate::scalar::HALF_RAW <= cos_poly(y).raw <= SCALE,
{
    let y2 = y.times(y);
    let one = Scalar::one();
    lemma_times_shrinks(y, y);
    lemma_horner_range(y2, 90, one);
    lemma_horner_range(y2, 56, horner(y2, 90, one));
    lemma_horner_range(y2, 30, horner(y2, 56, horner(y2, 90, one)));
    lemma_horner_range(y2, 12, horner(y2, 30, horner(y2, 56, horner(y2, 90, one))));
    let inner = horner(y2, 12, horner(y2, 30, horner(y2, 56, horner(y2, 90, one))));
    lemma_over_two_halves(y2);
    lemma_times_shrinks(y2.over(Scalar::whole(2)), inner);
}

/// The sine and the cosine of an angle are never both zero: one of them is
/// at least one half in size.
pub proof fn lemma_sin_cos_not_both_zero(angle: Scalar)
    ensures
        angle.sin_spec().raw != 0 || angle.cos_spec().raw != 0,
{
    reveal(Scalar::sin_spec);
    reveal(Scalar::cos_spec);
    lemma_reduction(angle.raw as int);
    let y = within_quarter(angle.raw as int);
    if y.raw <= EIGHTH_TURN_RAW {
        lemma_cos_poly_large(y);
    } else {
        lemma_cos_poly_large(Scalar { raw: QUARTER_TURN_RAW }.minus(y));
    }
}

/// The sine and the cosine of any angle lie between minus one and one.
pub proof fn lemma_sin_cos_range(angle: Scalar)
    ensures
        -SCALE <= angle.sin_spec().raw <= SCALE,
        -SCALE <= angle.cos_spec().raw <= SCALE,
{
    reveal(Scalar::sin_spec);
    reveal(Scalar::cos_spec);
    lemma_reduction(angle.raw as int);
    let y = within_quarter(angle.raw as int);
    if y.raw <= EIGHTH_TURN_RAW {
        lemma_poly_range(y);
    } else {
        lemma_poly_range(Scalar { raw: QUARTER_TURN_RAW }.minus(y));
    }
}

fn horner_step(y2: Scalar, k: i64, inner: Scalar) -> (r: Scalar)
    ensures
        r == horner(y2, k as int, inner),
{
    Scalar { raw: SCALE }.sub(y2.div(Scalar::from_int(k)).mul(inner))
}

fn sin_taylor(y: Scalar) -> (r: Scalar)
    ensures
        r == sin_poly(y),
{
    let y2 = y.mul(y);
    let one = Scalar { raw: SCALE };
    let tail = horner_step(y2, 110, one);
    let tail = horner_step(y2, 72, tail);
    let tail = horner_step(y2, 42, tail);
    let tail = horner_step(y2, 20, tail);
    let tail = horner_step(y2, 6, tail);
    y.mul(tail)
}

fn cos_taylor(y: Scalar) -> (r: Scalar)
    ensures
        r == cos_poly(y),
{
    let y2 = y.mul(y);
    let one = Scalar { raw: SCALE };
    let tail = horner_step(y2, 90, one);
    let tail = horner_step(y2, 56, tail);
    let tail = horner_step(y2, 30, tail);
    let tail = horner_step(y2, 12, tail);
    horner_step(y2, 2, tail)
}

/// Splits an angle into its quarter of the turn and the rest.
fn reduce(angle: Scalar) -> (r: (u8, Scalar))
    ensures
        r.0 == quadrant(angle.raw as int),
        r.1 == within_quarter(angle.raw as int),
        0 <= r.0 <= 3,
        0 <= r.1.raw < QUARTER_TURN_RAW,
{
    let turns: i128 = floor_div(angle.raw as i128, TURN_RAW as i128);
    proof {
        lemma_reduction(angle.raw as int);
        lemma_fundamental_div_mod(angle.raw as int, TURN_RAW as int);
        assert(turns * TURN_RAW == TURN_RAW * turns) by (nonlinear_arith);
    }
    let rest: i128 = angle.raw as i128 - turns * (TURN_RAW as i128);
    let q: i128 = rest / (QUARTER_TURN_RAW as i128);
    proof {
        assert(q * QUARTER_TURN_RAW >= 0) by (nonlinear_arith)
            requires
                q >= 0,
                QUARTER_TURN_RAW > 0,
        ;
    }
    let y: i128 = rest - q * (QUARTER_TURN_RAW as i128);
    (q as u8, Scalar { raw: y as i64 })
}

impl Scalar {
    /// The sine of this angle, in radians.
    #[verifier::opaque]
    pub open spec fn sin_spec(self) -> Scalar {
        let y = within_quarter(self.raw as int);
        let q = quadrant(self.raw as int);
        if q == 0 {
            sin_quarter(y)
        } else if q == 1 {
            cos_quarter(y)
        } else if q == 2 {
            sin_quarter(y).negated()
        } else {
            cos_quarter(y).negated()
        }
    }

    /// The cosine of this angle, in radians.
    #[verifier::opaque]
    pub open spec fn cos_spec(self) -> Scalar {
        let y = within_quarter(self.raw as int);
        let q = quadrant(self.raw as int);
        if q == 0 {
            cos_quarter(y)
        } else if q == 1 {
            sin_quarter(y).negated()
        } else if q == 2 {
            cos_quarter(y).negated()
        } else {
            sin_quarter(y)
        }
    }

    /// The tangent of this angle: its sine over its cosine.
    pub open spec fn tan_spec(self) -> Scalar {
        self.sin_spec().over(self.cos_spec())
    }

    /// This angle in degrees, turned into radians: `self * pi / 180`.
    pub open spec fn to_radians_spec(self) -> Scalar {
        self.times(Scalar { raw: PI_RAW }).over(Scalar::whole(180))
    }

    /// The sine and the cosine of an angle in the first quarter turn.
    fn sin_cos_quarter(y: Scalar) -> (r: (Scalar, Scalar))
        ensures
            r.0 == sin_quarter(y),
            r.1 == cos_quarter(y),
    {
        if y.raw <= EIGHTH_TURN_RAW {
            (sin_taylor(y), cos_taylor(y))
        } else {
            let z = Scalar { raw: QUARTER_TURN_RAW }.sub(y);
            (cos_taylor(z), sin_taylor(z))
        }
    }

    /// The sine of this angle, in radians.
    pub fn sin(self) -> (r: Scalar)
        ensures
            r == self.sin_spec(),
            -SCALE <= r.raw <= SCALE,
    {
        reveal(Scalar::sin_spec);
        proof {
            lemma_sin_cos_range(self);
        }
        let (q, y) = reduce(self);
        let (s, c) = Scalar::sin_cos_quarter(y);
        if q == 0 {
            s
        } else if q == 1 {
            c
        } else if q == 2 {
            s.neg()
        } else {
            c.neg()
        }
    }

    /// The cosine of this angle, in radians.
    pub fn cos(self) -> (r: Scalar)
        ensures
            r == self.cos_spec(),
            -SCALE <= r.raw <= SCALE,
    {
        reveal(Scalar::cos_spec);
        proof {
            lemma_sin_cos_range(self);
        }
        let (q, y) = reduce(self);
        let (s, c) = Scalar::sin_cos_quarter(y);
        if q == 0 {
            c
        } else if q == 1 {
            s.neg()
        } else if q == 2 {
            c.neg()
        } else {
            s
        }
    }

    /// The tangent of this angle, in radians. Where the cosine rounds to
    /// zero the tangent saturates.
    pub fn tan(self) -> (r: Scalar)
        ensures
            r == self.tan_spec(),
    {
        self.sin().div(self.cos())
    }

    /// This angle in degrees, turned into radians.
    pub fn to_radians(self) -> (r: Scalar)
        ensures
            r == self.to_radians_spec(),
    {
        self.mul(Scalar { raw: PI_RAW }).div(Scalar::from_int(180))
    }
}

} // verus!
