//! Fixed-point real numbers.
//!
//! A [`Scalar`] stands for the real number `raw / SCALE`. Every operation
//! rounds toward negative infinity and saturates at the ends of the `i64`
//! range, so that arithmetic is total: no operation overflows, traps or
//! yields a value outside the type.

use vstd::prelude::*;
use vstd::arithmetic::div_mod::*;

verus! {

/// Number of raw units in one whole: a scalar has nine decimal places.
pub const SCALE: i64 = 1_000_000_000;

/// The raw value of one half.
pub const HALF_RAW: i64 = 500_000_000;

/// A signed fixed-point number with nine decimal places.
#[derive(Clone, Copy, Debug, PartialEq, Eq, Structural)]
pub struct Scalar {
    /// The value in units of `1 / SCALE`.
    pub raw: i64,
}

/// The nearest `i64` to `v`.
pub open spec fn saturate(v: int) -> i64 {
    if v < i64::MIN {
        i64::MIN
    } else if v > i64::MAX {
        i64::MAX
    } else {
        v as i64
    }
}

/// `n / d` rounded toward negative infinity, for any sign of `d`; a zero
/// divisor gives the limit of the quotient's sign, and `0 / 0` is `0`.
pub open spec fn floor_quotient(n: int, d: int) -> int {
    if d > 0 {
        n / d
    } else if d < 0 {
        (-n) / (-d)
    } else if n > 0 {
        i64::MAX as int
    } else if n < 0 {
        i64::MIN as int
    } else {
        0
    }
}

/// Whether `r` is the integer square root of `n`, rounded down.
pub open spec fn is_floor_sqrt(r: int, n: int) -> bool {
    0 <= r && r * r <= n < (r + 1) * (r + 1)
}

/// The integer square root of `n`, rounded down (`0` for a negative `n`).
pub open spec fn floor_sqrt(n: int) -> int {
    if n < 0 {
        0
    } else {
        choose|r: int| is_floor_sqrt(r, n)
    }
}

/// A number has at most one rounded-down square root.
pub proof fn lemma_floor_sqrt_unique(r: int, n: int)
    requires
        is_floor_sqrt(r, n),
    ensures
        floor_sqrt(n) == r,
{
    assert(n >= 0) by (nonlinear_arith)
        requires
            r * r <= n,
    ;
    let s = choose|s: int| is_floor_sqrt(s, n);
    assert(s == r) by (nonlinear_arith)
        requires
            0 <= r,
            0 <= s,
            r * r <= n < (r + 1) * (r + 1),
            s * s <= n < (s + 1) * (s + 1),
    ;
}

/// Every number that is not negative has a rounded-down square root.
pub proof fn lemma_floor_sqrt_exists(n: int)
    requires
        0 <= n,
    ensures
        is_floor_sqrt(floor_sqrt(n), n),
    decreases n,
{
    if n == 0 {
        assert(is_floor_sqrt(0, 0));
    } else {
        lemma_floor_sqrt_exists(n - 1);
        let r = floor_sqrt(n - 1);
        if (r + 1) * (r + 1) <= n {
            assert(is_floor_sqrt(r + 1, n)) by (nonlinear_arith)
                requires
                    0 <= r,
                    (r + 1) * (r + 1) <= n,
                    n - 1 < (r + 1) * (r + 1),
            ;
        } else {
            assert(is_floor_sqrt(r, n));
        }
    }
}

/// The rounded-down square root of a number that is larger than `b * b` is
/// at least the size of `b`.
pub proof fn lemma_floor_sqrt_above_square(b: int, n: int)
    requires
        b * b < n,
    ensures
        floor_sqrt(n) >= b,
        floor_sqrt(n) >= -b,
{
    assert(0 <= b * b) by (nonlinear_arith);
    lemma_floor_sqrt_exists(n);
    let r = floor_sqrt(n);
    assert(r >= b && r >= -b) by (nonlinear_arith)
        requires
            0 <= r,
            b * b < n,
            n < (r + 1) * (r + 1),
    ;
}

/// The square root of a scalar is the rounded-down square root of its raw
/// value times `SCALE`: that always fits a scalar.
pub proof fn lemma_sqrt_spec_raw(x: Scalar)
    ensures
        x.sqrt_spec().raw == floor_sqrt(x.raw * SCALE),
        x.sqrt_spec().raw >= 0,
{
    if x.raw >= 0 {
        let n = x.raw * SCALE;
        assert(0 <= n < 0x4000_0000_0000_0000_0000_0000) by (nonlinear_arith)
            requires
                0 <= x.raw <= i64::MAX,
                n == x.raw * SCALE,
                SCALE == 1_000_000_000,
        ;
        lemma_floor_sqrt_exists(n);
        let r = floor_sqrt(n);
        assert(r < 0x8000_0000_0000) by (nonlinear_arith)
            requires
                0 <= r,
                r * r <= n,
                n < 0x4000_0000_0000_0000_0000_0000,
        ;
    } else {
        assert(x.raw * SCALE < 0) by (nonlinear_arith)
            requires
                x.raw < 0,
                SCALE == 1_000_000_000,
        ;
    }
}

/// The product of a positive scalar and a negative one is negative: rounding
/// down never brings it up to zero.
pub proof fn lemma_times_positive_negative(x: Scalar, y: Scalar)
    requires
        x.raw > 0,
        y.raw < 0,
    ensures
        x.times(y).raw < 0,
{
    assert(x.raw * y.raw <= -1) by (nonlinear_arith)
        requires
            x.raw >= 1,
            y.raw <= -1,
    ;
    lemma_fundamental_div_mod_converse(-1, SCALE as int, -1, SCALE - 1);
    lemma_div_is_ordered(x.raw * y.raw, -1, SCALE as int);
}

/// The square of a scalar is not negative.
pub proof fn lemma_square_not_negative(x: Scalar)
    ensures
        x.times(x).raw >= 0,
{
    assert(x.raw * x.raw >= 0) by (nonlinear_arith);
    lemma_div_pos_is_pos(x.raw * x.raw, SCALE as int);
}

/// A product that is rounded away from zero is zero only where a factor
/// is zero.
pub proof fn lemma_times_away_zero(x: Scalar, y: Scalar)
    ensures
        x.times_away(y).raw == 0 <==> x.raw == 0 || y.raw == 0,
{
    let p = x.raw * y.raw;
    assert(p == 0 <==> x.raw == 0 || y.raw == 0) by (nonlinear_arith)
        requires
            p == x.raw * y.raw,
    ;
    if p > 0 {
        lemma_div_is_ordered(SCALE as int, p + SCALE - 1, SCALE as int);
        lemma_div_by_self(SCALE as int);
    } else if p < 0 {
        lemma_fundamental_div_mod_converse(-1, SCALE as int, -1, SCALE - 1);
        lemma_div_is_ordered(p, -1, SCALE as int);
    } else {
        lemma_small_div_converse(SCALE - 1, SCALE as int);
        assert((SCALE - 1) / (SCALE as int) == 0) by (nonlinear_arith)
            requires
                SCALE == 1_000_000_000,
        ;
    }
}

/// Division by a positive scalar keeps the order of the dividends.
pub proof fn lemma_over_keeps_order(m: Scalar, n: Scalar, d: Scalar)
    requires
        m.raw <= n.raw,
        d.raw > 0,
    ensures
        m.over(d).raw <= n.over(d).raw,
{
    assert(m.raw * SCALE <= n.raw * SCALE) by (nonlinear_arith)
        requires
            m.raw <= n.raw,
            SCALE == 1_000_000_000,
    ;
    lemma_div_is_ordered(m.raw * SCALE, n.raw * SCALE, d.raw as int);
}

/// A quotient whose dividend is not positive and whose divisor is not
/// negative is not positive.
pub proof fn lemma_over_not_positive(n: Scalar, d: Scalar)
    requires
        n.raw <= 0,
        d.raw >= 0,
    ensures
        n.over(d).raw <= 0,
{
    if d.raw > 0 {
        assert(n.raw * SCALE <= 0) by (nonlinear_arith)
            requires
                n.raw <= 0,
                SCALE == 1_000_000_000,
        ;
        lemma_div_is_ordered(n.raw * SCALE, 0, d.raw as int);
        lemma_div_of0(d.raw as int);
    } else {
        assert(n.raw < 0 ==> n.raw * SCALE < 0) by (nonlinear_arith)
            requires
                SCALE == 1_000_000_000,
        ;
    }
}

/// `n / d` rounded toward negative infinity.
pub(crate) fn floor_div(n: i128, d: i128) -> (q: i128)
    requires
        d > 0,
        n > i128::MIN,
    ensures
        q == n / d,
{
    if n >= 0 {
        n / d
    } else {
        let m: i128 = -n;
        let t: i128 = m / d;
        let r: i128 = m % d;
        proof {
            lemma_fundamental_div_mod(m as int, d as int);
            lemma_div_nonincreasing(m as int, d as int);
            lemma_div_pos_is_pos(m as int, d as int);
        }
        if r == 0 {
            proof {
                assert(n == (-(t as int)) * d + 0) by (nonlinear_arith)
                    requires
                        m == d * t + r,
                        r == 0,
                        n == -m,
                ;
                lemma_fundamental_div_mod_converse(n as int, d as int, -(t as int), 0);
            }
            -t
        } else {
            proof {
                assert(n == (-(t as int) - 1) * d + (d - r)) by (nonlinear_arith)
                    requires
                        m == d * t + r,
                        n == -m,
                ;
                lemma_fundamental_div_mod_converse(
                    n as int,
                    d as int,
                    -(t as int) - 1,
                    (d - r) as int,
                );
            }
            -t - 1
        }
    }
}

/// The `i64` nearest to `v`.
fn saturate_to_i64(v: i128) -> (r: i64)
    ensures
        r == saturate(v as int),
{
    if v > i64::MAX as i128 {
        i64::MAX
    } else if v < i64::MIN as i128 {
        i64::MIN
    } else {
        v as i64
    }
}

/// The integer square root of `n`, rounded down.
pub(crate) fn isqrt(n: u128) -> (r: u64)
    ensures
        is_floor_sqrt(r as int, n as int),
{
    let mut lo: u128 = 0;
    let mut hi: u128 = 0x1_0000_0000_0000_0000u128;
    assert(0x1_0000_0000_0000_0000u128 * 0x1_0000_0000_0000_0000u128
        == 0x1_0000_0000_0000_0000_0000_0000_0000_0000int) by (nonlinear_arith);
    while hi - lo > 1
        invariant
            lo < hi <= 0x1_0000_0000_0000_0000u128,
            lo * lo <= n < hi * hi,
        decreases hi - lo,
    {
        let mid: u128 = lo + (hi - lo) / 2;
        assert(mid * mid < 0x1_0000_0000_0000_0000_0000_0000_0000_0000int) by (nonlinear_arith)
            requires
                mid < 0x1_0000_0000_0000_0000u128,
        ;
        if mid * mid <= n {
            lo = mid;
        } else {
            hi = mid;
        }
    }
    lo as u64
}

impl Scalar {
    /// The scalar `0`.
    pub open spec fn zero() -> Scalar {
        Scalar { raw: 0 }
    }

    /// The scalar `1`.
    pub open spec fn one() -> Scalar {
        Scalar { raw: SCALE }
    }

    /// The largest scalar; it stands for an unbounded quantity.
    pub open spec fn max_value() -> Scalar {
        Scalar { raw: i64::MAX }
    }

    /// The scalar that stands for the whole number `n`.
    pub open spec fn whole(n: int) -> Scalar {
        Scalar { raw: saturate(n * SCALE) }
    }

    /// The sum, saturated.
    pub open spec fn plus(self, rhs: Scalar) -> Scalar {
        Scalar { raw: saturate(self.raw + rhs.raw) }
    }

    /// The difference, saturated.
    pub open spec fn minus(self, rhs: Scalar) -> Scalar {
        Scalar { raw: saturate(self.raw - rhs.raw) }
    }

    /// The negation, saturated.
    pub open spec fn negated(self) -> Scalar {
        Scalar { raw: saturate(-self.raw) }
    }

    /// The product, rounded down and saturated.
    pub open spec fn times(self, rhs: Scalar) -> Scalar {
        Scalar { raw: saturate(self.raw * rhs.raw / (SCALE as int)) }
    }

    /// The product, rounded away from zero and saturated: it is zero only
    /// where a factor is zero.
    pub open spec fn times_away(self, rhs: Scalar) -> Scalar {
        let p = self.raw * rhs.raw;
        Scalar {
            raw: saturate(
                if p >= 0 {
                    (p + SCALE - 1) / (SCALE as int)
                } else {
                    p / (SCALE as int)
                },
            ),
        }
    }

    /// The quotient, rounded down and saturated.
    pub open spec fn over(self, rhs: Scalar) -> Scalar {
        Scalar { raw: saturate(floor_quotient(self.raw * SCALE, rhs.raw as int)) }
    }

    /// The absolute value.
    pub open spec fn abs_spec(self) -> Scalar {
        if self.raw >= 0 {
            self
        } else {
            self.negated()
        }
    }

    /// The square root, rounded down; that of a negative number is `0`.
    pub open spec fn sqrt_spec(self) -> Scalar {
        Scalar { raw: floor_sqrt(self.raw * SCALE) as i64 }
    }

    /// `1` for a positive number, `0` for zero, `-1` for a negative number.
    pub open spec fn signum_spec(self) -> Scalar {
        if self.raw > 0 {
            Scalar { raw: SCALE }
        } else if self.raw == 0 {
            Scalar { raw: 0 }
        } else {
            Scalar { raw: (-SCALE) as i64 }
        }
    }

    /// The larger of two scalars.
    pub open spec fn max_spec(self, other: Scalar) -> Scalar {
        if self.raw >= other.raw {
            self
        } else {
            other
        }
    }

    /// Makes a scalar of its raw value, in units of `1 / SCALE`.
    pub fn from_raw(raw: i64) -> (r: Scalar)
        ensures
            r.raw == raw,
    {
        Scalar { raw }
    }

    /// Makes the scalar that stands for the whole number `n`.
    pub fn from_int(n: i64) -> (r: Scalar)
        ensures
            r == Scalar::whole(n as int),
    {
        assert(-0x4000_0000_0000_0000_0000_0000 < n * SCALE < 0x4000_0000_0000_0000_0000_0000)
            by (nonlinear_arith)
            requires
                i64::MIN <= n <= i64::MAX,
                SCALE == 1_000_000_000,
        ;
        let wide: i128 = n as i128 * SCALE as i128;
        Scalar { raw: saturate_to_i64(wide) }
    }

    /// The absolute value; that of the smallest scalar is the largest.
    pub fn abs(self) -> (r: Scalar)
        ensures
            r == self.abs_spec(),
            r.raw >= 0,
    {
        if self.raw >= 0 {
            self
        } else {
            Scalar { raw: saturate_to_i64(-(self.raw as i128)) }
        }
    }

    /// The square root, rounded down to the next scalar.
    pub fn sqrt(self) -> (r: Scalar)
        ensures
            r == self.sqrt_spec(),
            self.raw >= 0 ==> is_floor_sqrt(r.raw as int, self.raw * SCALE),
            self.raw < 0 ==> r.raw == 0,
    {
        if self.raw < 0 {
            assert(self.raw * SCALE < 0) by (nonlinear_arith)
                requires
                    self.raw < 0,
                    SCALE == 1_000_000_000,
            ;
            Scalar { raw: 0 }
        } else {
            assert(0 <= self.raw * SCALE < 0x4000_0000_0000_0000_0000_0000) by (nonlinear_arith)
                requires
                    0 <= self.raw <= i64::MAX,
                    SCALE == 1_000_000_000,
            ;
            let n: u128 = self.raw as u128 * SCALE as u128;
            let root: u64 = isqrt(n);
            proof {
                lemma_floor_sqrt_unique(root as int, n as int);
                assert(root < 0x8000_0000_0000) by (nonlinear_arith)
                    requires
                        0 <= root,
                        root * root <= n,
                        n < 0x4000_0000_0000_0000_0000_0000,
                ;
            }
            Scalar { raw: root as i64 }
        }
    }

    /// The sign as a scalar: `1` above zero, `0` at zero, `-1` below.
    pub fn signum(self) -> (r: Scalar)
        ensures
            r == self.signum_spec(),
    {
        if self.raw > 0 {
            Scalar { raw: SCALE }
        } else if self.raw == 0 {
            Scalar { raw: 0 }
        } else {
            Scalar { raw: -SCALE }
        }
    }

    /// The larger of two scalars.
    pub fn max(self, other: Scalar) -> (r: Scalar)
        ensures
            r == self.max_spec(other),
    {
        if self.raw >= other.raw {
            self
        } else {
            other
        }
    }

    /// The sum, saturated.
    pub fn add(self, rhs: Scalar) -> (r: Scalar)
        ensures
            r == self.plus(rhs),
    {
        Scalar { raw: saturate_to_i64(self.raw as i128 + rhs.raw as i128) }
    }

    /// The difference, saturated.
    pub fn sub(self, rhs: Scalar) -> (r: Scalar)
        ensures
            r == self.minus(rhs),
    {
        Scalar { raw: saturate_to_i64(self.raw as i128 - rhs.raw as i128) }
    }

    /// The negation, saturated: that of the smallest scalar is the largest.
    pub fn neg(self) -> (r: Scalar)
        ensures
            r == self.negated(),
    {
        Scalar { raw: saturate_to_i64(-(self.raw as i128)) }
    }

    /// The product, rounded down to the next scalar and saturated.
    pub fn mul(self, rhs: Scalar) -> (r: Scalar)
        ensures
            r == self.times(rhs),
    {
        assert(-0x4000_0000_0000_0000_0000_0000_0000_0000 <= self.raw * rhs.raw
            <= 0x4000_0000_0000_0000_0000_0000_0000_0000) by (nonlinear_arith)
            requires
                i64::MIN <= self.raw <= i64::MAX,
                i64::MIN <= rhs.raw <= i64::MAX,
        ;
        let wide: i128 = self.raw as i128 * rhs.raw as i128;
        Scalar { raw: saturate_to_i64(floor_div(wide, SCALE as i128)) }
    }

    /// The product, rounded away from zero to the next scalar and
    /// saturated. It is zero only where a factor is zero.
    pub fn mul_away(self, rhs: Scalar) -> (r: Scalar)
        ensures
            r == self.times_away(rhs),
            r.raw == 0 <==> self.raw == 0 || rhs.raw == 0,
    {
        assert(-0x4000_0000_0000_0000_0000_0000_0000_0000 <= self.raw * rhs.raw
            <= 0x4000_0000_0000_0000_0000_0000_0000_0000) by (nonlinear_arith)
            requires
                i64::MIN <= self.raw <= i64::MAX,
                i64::MIN <= rhs.raw <= i64::MAX,
        ;
        proof {
            lemma_times_away_zero(self, rhs);
        }
        let wide: i128 = self.raw as i128 * rhs.raw as i128;
        if wide >= 0 {
            Scalar { raw: saturate_to_i64(floor_div(wide + (SCALE as i128 - 1), SCALE as i128)) }
        } else {
            Scalar { raw: saturate_to_i64(floor_div(wide, SCALE as i128)) }
        }
    }

    /// The quotient, rounded down to the next scalar and saturated. Division
    /// by zero saturates by the sign of the dividend; `0 / 0` is `0`.
    pub fn div(self, rhs: Scalar) -> (r: Scalar)
        ensures
            r == self.over(rhs),
    {
        assert(-0x4000_0000_0000_0000_0000_0000 < self.raw * SCALE
            < 0x4000_0000_0000_0000_0000_0000) by (nonlinear_arith)
            requires
                i64::MIN <= self.raw <= i64::MAX,
                SCALE == 1_000_000_000,
        ;
        let wide: i128 = self.raw as i128 * SCALE as i128;
        if rhs.raw > 0 {
            Scalar { raw: saturate_to_i64(floor_div(wide, rhs.raw as i128)) }
        } else if rhs.raw < 0 {
            Scalar { raw: saturate_to_i64(floor_div(-wide, -(rhs.raw as i128))) }
        } else if self.raw > 0 {
            assert(self.raw * SCALE > 0) by (nonlinear_arith)
                requires
                    self.raw > 0,
                    SCALE == 1_000_000_000,
            ;
            Scalar { raw: i64::MAX }
        } else if self.raw < 0 {
            assert(self.raw * SCALE < 0) by (nonlinear_arith)
                requires
                    self.raw < 0,
                    SCALE == 1_000_000_000,
            ;
            Scalar { raw: i64::MIN }
        } else {
            Scalar { raw: 0 }
        }
    }
}

} // verus!
