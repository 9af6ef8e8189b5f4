//! Three-component vectors over [`Scalar`].
//!
//! A [`Vec3`] serves as a point, a direction or a linear RGB colour; the
//! caller keeps track of which. The arithmetic is that of the scalars,
//! component by component, so it rounds and saturates as they do.
//!
//! The length is taken of the exact sum of the squared components, and a
//! vector is normalized over the exact length of a multiple of itself, so
//! that a normalized vector has unit length to within a few raw units,
//! however short or long the vector was.

use vstd::prelude::*;
use crate::random::random_scalar;
use vstd::arithmetic::div_mod::*;
use crate::scalar::{
    floor_div, floor_quotient, floor_sqrt, is_floor_sqrt, isqrt, lemma_floor_sqrt_exists,
    lemma_floor_sqrt_unique, lemma_sqrt_spec_raw, lemma_square_not_negative, saturate, Scalar,
    SCALE,
};
use crate::trig::{lemma_sin_cos_not_both_zero, EIGHTH_TURN_RAW, QUARTER_TURN_RAW, TURN_RAW};

verus! {

/// The raw value of `0.9`: a unit normal whose `y` is larger in size counts
/// as nearly parallel to the world's Y axis.
pub const NEARLY_PARALLEL_RAW: i64 = 900_000_000;

/// Whether `s` can be an offset drawn for a point of the unit disk:
/// `-1 <= s < 1`.
pub open spec fn is_offset(s: Scalar) -> bool {
    -SCALE <= s.raw < SCALE
}

/// Whether `s` can be a fraction drawn from the unit interval: `0 <= s < 1`.
pub open spec fn is_fraction(s: Scalar) -> bool {
    0 <= s.raw < SCALE
}

/// How far the length of a unit vector may be from one, in raw units.
pub const UNIT_SLACK_RAW: i64 = 4;

/// The size of a raw value.
pub open spec fn size(raw: int) -> int {
    if raw >= 0 {
        raw
    } else {
        -raw
    }
}

/// The whole number by which a vector of the given reach is multiplied
/// before it is normalized, so that its largest component is at least one:
/// it keeps short vectors from losing their direction to rounding.
pub open spec fn boost(reach: int) -> int {
    if 0 < reach < SCALE {
        (SCALE as int) / reach + 1
    } else {
        1
    }
}

/// A vector of three scalars.
#[derive(Clone, Copy, Debug, PartialEq, Eq, Structural)]
pub struct Vec3 {
    pub x: Scalar,
    pub y: Scalar,
    pub z: Scalar,
}

impl Vec3 {
    /// The vector whose components are all zero.
    pub open spec fn zero() -> Vec3 {
        Vec3 { x: Scalar::zero(), y: Scalar::zero(), z: Scalar::zero() }
    }

    /// The sum, component by component.
    pub open spec fn plus(self, other: Vec3) -> Vec3 {
        Vec3 { x: self.x.plus(other.x), y: self.y.plus(other.y), z: self.z.plus(other.z) }
    }

    /// The difference, component by component.
    pub open spec fn minus(self, other: Vec3) -> Vec3 {
        Vec3 { x: self.x.minus(other.x), y: self.y.minus(other.y), z: self.z.minus(other.z) }
    }

    /// The opposite vector.
    pub open spec fn negated(self) -> Vec3 {
        Vec3 { x: self.x.negated(), y: self.y.negated(), z: self.z.negated() }
    }

    /// The product component by component, as of two colours.
    pub open spec fn times(self, other: Vec3) -> Vec3 {
        Vec3 { x: self.x.times(other.x), y: self.y.times(other.y), z: self.z.times(other.z) }
    }

    /// Every component multiplied by `a`.
    pub open spec fn scaled(self, a: Scalar) -> Vec3 {
        Vec3 { x: a.times(self.x), y: a.times(self.y), z: a.times(self.z) }
    }

    /// Every component divided by `a`.
    pub open spec fn over(self, a: Scalar) -> Vec3 {
        Vec3 { x: self.x.over(a), y: self.y.over(a), z: self.z.over(a) }
    }

    /// The dot product: the three products, summed from the left.
    pub open spec fn dot_spec(self, other: Vec3) -> Scalar {
        self.x.times(other.x).plus(self.y.times(other.y)).plus(self.z.times(other.z))
    }

    /// The squared length, as a scalar: the dot product of the vector with
    /// itself, with the rounding of its three products.
    pub open spec fn norm_sq_spec(self) -> Scalar {
        self.dot_spec(self)
    }

    /// The sum of the squares of the raw components: the square of the
    /// length, in raw units and without rounding.
    pub open spec fn square_sum(self) -> int {
        self.x.raw * self.x.raw + self.y.raw * self.y.raw + self.z.raw * self.z.raw
    }

    /// The length: the square root of the exact sum of the squares, rounded
    /// down and saturated.
    pub open spec fn norm_spec(self) -> Scalar {
        Scalar { raw: saturate(floor_sqrt(self.square_sum())) }
    }

    /// Whether the vector has unit length, to within `slack` raw units.
    pub open spec fn is_unit_within(self, slack: int) -> bool {
        SCALE - slack <= self.norm_spec().raw <= SCALE + slack
    }

    /// Whether the vector has unit length, to within `UNIT_SLACK_RAW` raw
    /// units.
    pub open spec fn is_unit(self) -> bool {
        self.is_unit_within(UNIT_SLACK_RAW as int)
    }

    /// The size of the largest raw component.
    pub open spec fn reach(self) -> int {
        let x = size(self.x.raw as int);
        let y = size(self.y.raw as int);
        let z = size(self.z.raw as int);
        if x >= y && x >= z {
            x
        } else if y >= z {
            y
        } else {
            z
        }
    }

    /// Whether no component of `other` points the other way than the same
    /// component of this vector: where the one is zero or more, so is the
    /// other, and where it is zero or less, so is the other.
    pub open spec fn keeps_signs(self, other: Vec3) -> bool {
        &&& self.x.raw >= 0 ==> other.x.raw >= 0
        &&& self.x.raw <= 0 ==> other.x.raw <= 0
        &&& self.y.raw >= 0 ==> other.y.raw >= 0
        &&& self.y.raw <= 0 ==> other.y.raw <= 0
        &&& self.z.raw >= 0 ==> other.z.raw >= 0
        &&& self.z.raw <= 0 ==> other.z.raw <= 0
    }

    /// The vector multiplied by the whole number `m`, without rounding.
    pub open spec fn boosted_square_sum(self, m: int) -> int {
        (m * self.x.raw) * (m * self.x.raw) + (m * self.y.raw) * (m * self.y.raw) + (m
            * self.z.raw) * (m * self.z.raw)
    }

    /// The vector divided by its length: each component, multiplied by the
    /// vector's boost, over the length of the boosted vector, rounded down.
    /// The zero vector has no direction and is left as it is.
    pub open spec fn normalize_spec(self) -> Vec3 {
        let m = boost(self.reach());
        let n = floor_sqrt(self.boosted_square_sum(m));
        Vec3 {
            x: Scalar { raw: floor_quotient(m * self.x.raw * SCALE, n) as i64 },
            y: Scalar { raw: floor_quotient(m * self.y.raw * SCALE, n) as i64 },
            z: Scalar { raw: floor_quotient(m * self.z.raw * SCALE, n) as i64 },
        }
    }

    /// The cross product.
    pub open spec fn cross_spec(self, other: Vec3) -> Vec3 {
        Vec3 {
            x: self.y.times(other.z).minus(self.z.times(other.y)),
            y: self.z.times(other.x).minus(self.x.times(other.z)),
            z: self.x.times(other.y).minus(self.y.times(other.x)),
        }
    }

    /// The point at `t` on the way from `a` to `b`: `a (1 - t) + b t`.
    pub open spec fn lerp_spec(a: Vec3, b: Vec3, t: Scalar) -> Vec3 {
        a.scaled(Scalar::one().minus(t)).plus(b.scaled(t))
    }

    /// The point of the plane `z = 0` at distance `r` from the origin, at
    /// the angle `theta` from the X axis. The two products are rounded away
    /// from zero, so that a radius that is not zero never gives the origin.
    pub open spec fn polar_spec(r: Scalar, theta: Scalar) -> Vec3 {
        Vec3 {
            x: r.times_away(theta.cos_spec()),
            y: r.times_away(theta.sin_spec()),
            z: Scalar::zero(),
        }
    }

    /// The point of the unit disk that the offsets `u` and `v` stand for.
    /// The square of offsets is mapped onto the disk wedge by wedge: the
    /// larger offset is the radius, the ratio of the two the angle. Two zero
    /// offsets give the centre.
    pub open spec fn disk_spec(u: Scalar, v: Scalar) -> Vec3 {
        let eighth = Scalar { raw: EIGHTH_TURN_RAW };
        let quarter = Scalar { raw: QUARTER_TURN_RAW };
        if u.raw == 0 && v.raw == 0 {
            Vec3::zero()
        } else if u.abs_spec().raw > v.abs_spec().raw {
            Vec3::polar_spec(u, eighth.times(v.over(u)))
        } else {
            Vec3::polar_spec(v, quarter.minus(eighth.times(u.over(v))))
        }
    }

    /// The point of the unit hemisphere around the Z axis at height `z` and
    /// at the fraction `turn` of a full turn around the axis.
    pub open spec fn hemisphere_spec(z: Scalar, turn: Scalar) -> Vec3 {
        let r = Scalar::one().minus(z.times(z)).sqrt_spec();
        let phi = Scalar { raw: TURN_RAW }.times(turn);
        Vec3 { x: r.times(phi.cos_spec()), y: r.times(phi.sin_spec()), z }
    }

    /// The point of the unit hemisphere above the point `d` of the unit
    /// disk: `z = sqrt(max(0, 1 - x^2 - y^2))`.
    pub open spec fn lifted(d: Vec3) -> Vec3 {
        Vec3 {
            x: d.x,
            y: d.y,
            z: Scalar::zero().max_spec(
                Scalar::one().minus(d.x.times(d.x)).minus(d.y.times(d.y)),
            ).sqrt_spec(),
        }
    }

    /// The direction, weighted by the cosine of its angle to the Z axis,
    /// that the offsets `u` and `v` stand for.
    pub open spec fn cosine_spec(u: Scalar, v: Scalar) -> Vec3 {
        Vec3::lifted(Vec3::disk_spec(u, v))
    }

    /// The axis that is crossed with this normal to get a tangent: the
    /// world's Y axis, or its X axis where the normal is nearly parallel to
    /// the Y axis.
    pub open spec fn reference_axis(self) -> Vec3 {
        if self.y.abs_spec().raw > NEARLY_PARALLEL_RAW {
            Vec3 { x: Scalar::one(), y: Scalar::zero(), z: Scalar::zero() }
        } else {
            Vec3 { x: Scalar::zero(), y: Scalar::one(), z: Scalar::zero() }
        }
    }

    /// The tangent and the bitangent that go with this normal.
    pub open spec fn onb_spec(self) -> (Vec3, Vec3) {
        let tangent = self.cross_spec(self.reference_axis()).normalize_spec();
        (tangent, self.cross_spec(tangent))
    }

    /// Makes a vector of its three components.
    pub fn new(x: Scalar, y: Scalar, z: Scalar) -> (r: Vec3)
        ensures
            r == (Vec3 { x, y, z }),
    {
        Vec3 { x, y, z }
    }

    /// The point of the unit disk that the offsets `u` and `v` stand for.
    /// It is the centre for two zero offsets, and for no others.
    pub fn disk_point(u: Scalar, v: Scalar) -> (r: Vec3)
        ensures
            r == Vec3::disk_spec(u, v),
            r == Vec3::zero() <==> u.raw == 0 && v.raw == 0,
            r.z.raw == 0,
    {
        if u.raw == 0 && v.raw == 0 {
            return Vec3::zeros();
        }
        let eighth = Scalar { raw: EIGHTH_TURN_RAW };
        let quarter = Scalar { raw: QUARTER_TURN_RAW };
        let (theta, r) = if u.abs().raw > v.abs().raw {
            (eighth.mul(v.div(u)), u)
        } else {
            (quarter.sub(eighth.mul(u.div(v))), v)
        };
        proof {
            lemma_sin_cos_not_both_zero(theta);
        }

        Vec3 { x: r.mul_away(theta.cos()), y: r.mul_away(theta.sin()), z: Scalar { raw: 0 } }
    }

    /// A random point of the unit disk in the plane `z = 0`. It is the
    /// centre where two zero offsets are drawn, and nowhere else.
    pub fn rand_disk() -> (r: Vec3)
        ensures
            exists|u: Scalar, v: Scalar|
                is_offset(u) && is_offset(v) && r == #[trigger] Vec3::disk_spec(u, v) && (r
                    == Vec3::zero() <==> u.raw == 0 && v.raw == 0),
            r.z.raw == 0,
    {
        let u_offset = random_scalar(Scalar { raw: -SCALE }, Scalar { raw: SCALE });
        let v_offset = random_scalar(Scalar { raw: -SCALE }, Scalar { raw: SCALE });
        Vec3::disk_point(u_offset, v_offset)
    }

    /// The point of the unit hemisphere around the Z axis at height `z` and
    /// at the fraction `turn` of a full turn around the axis.
    pub fn hemisphere_point(z: Scalar, turn: Scalar) -> (r: Vec3)
        ensures
            r == Vec3::hemisphere_spec(z, turn),
    {
        let r = Scalar { raw: SCALE }.sub(z.mul(z)).sqrt();
        let phi = Scalar { raw: TURN_RAW }.mul(turn);

        Vec3 { x: r.mul(phi.cos()), y: r.mul(phi.sin()), z }
    }

    /// A random point of the unit hemisphere around the Z axis, every
    /// height and every angle around the axis as likely as any other.
    pub fn rand_hemisphere() -> (r: Vec3)
        ensures
            exists|z: Scalar, turn: Scalar|
                is_fraction(z) && is_fraction(turn) && r == #[trigger] Vec3::hemisphere_spec(
                    z,
                    turn,
                ),
            0 <= r.z.raw < SCALE,
    {
        let z = random_scalar(Scalar { raw: 0 }, Scalar { raw: SCALE });
        let turn = random_scalar(Scalar { raw: 0 }, Scalar { raw: SCALE });
        Vec3::hemisphere_point(z, turn)
    }

    /// The point of the unit hemisphere above the point `d` of the unit disk.
    pub fn lift_to_hemisphere(d: Vec3) -> (r: Vec3)
        ensures
            r == Vec3::lifted(d),
            r.x == d.x && r.y == d.y,
            0 <= r.z.raw <= SCALE,
    {
        proof {
            lemma_lifted_height(d);
        }
        let rest = Scalar { raw: SCALE }.sub(d.x.mul(d.x)).sub(d.y.mul(d.y));
        let z = Scalar { raw: 0 }.max(rest).sqrt();
        Vec3 { x: d.x, y: d.y, z }
    }

    /// The direction, weighted by the cosine of its angle to the Z axis,
    /// that the offsets `u` and `v` stand for.
    pub fn cosine_point(u: Scalar, v: Scalar) -> (r: Vec3)
        ensures
            r == Vec3::cosine_spec(u, v),
            0 <= r.z.raw <= SCALE,
    {
        Vec3::lift_to_hemisphere(Vec3::disk_point(u, v))
    }

    /// A random direction of the unit hemisphere around the Z axis, weighted
    /// by the cosine of its angle to the axis.
    pub fn rand_hemisphere_cosine() -> (r: Vec3)
        ensures
            exists|u: Scalar, v: Scalar|
                is_offset(u) && is_offset(v) && r == #[trigger] Vec3::cosine_spec(u, v),
            0 <= r.z.raw <= SCALE,
    {
        let u_offset = random_scalar(Scalar { raw: -SCALE }, Scalar { raw: SCALE });
        let v_offset = random_scalar(Scalar { raw: -SCALE }, Scalar { raw: SCALE });
        Vec3::cosine_point(u_offset, v_offset)
    }

    /// The tangent and the bitangent that, with this unit normal, make an
    /// orthonormal basis. The tangent has unit length.
    pub fn extend_to_onb(&self) -> (r: (Vec3, Vec3))
        requires
            self.is_unit(),
        ensures
            r == self.onb_spec(),
            r.0.is_unit(),
    {
        let a = if self.y.abs().raw > NEARLY_PARALLEL_RAW {
            Vec3::new(Scalar { raw: SCALE }, Scalar { raw: 0 }, Scalar { raw: 0 })
        } else {
            Vec3::new(Scalar { raw: 0 }, Scalar { raw: SCALE }, Scalar { raw: 0 })
        };
        proof {
            lemma_unit_crosses_reference_axis(*self);
        }

        let tangent = self.cross(&a).normalize();
        let bitangent = self.cross(&tangent);
        (tangent, bitangent)
    }

    /// The vector whose components are all zero.
    pub fn zeros() -> (r: Vec3)
        ensures
            r == Vec3::zero(),
    {
        Vec3 { x: Scalar { raw: 0 }, y: Scalar { raw: 0 }, z: Scalar { raw: 0 } }
    }

    /// The point at `t` on the way from `a` to `b`.
    pub fn lerp(a: Vec3, b: Vec3, t: Scalar) -> (r: Vec3)
        ensures
            r == Vec3::lerp_spec(a, b, t),
    {
        a.scale(Scalar { raw: SCALE }.sub(t)).add(b.scale(t))
    }

    /// The dot product.
    pub fn dot(&self, other: &Vec3) -> (r: Scalar)
        ensures
            r == self.dot_spec(*other),
    {
        self.x.mul(other.x).add(self.y.mul(other.y)).add(self.z.mul(other.z))
    }

    /// The squared length, as a scalar: the dot product of the vector with
    /// itself.
    pub fn norm_sq(&self) -> (r: Scalar)
        ensures
            r == self.norm_sq_spec(),
    {
        self.dot(self)
    }

    /// The sum of the squares of the components of `(x, y, z)`.
    fn wide_square_sum(x: i128, y: i128, z: i128) -> (r: u128)
        requires
            -0x8000_0000_0000_0000 <= x <= 0x8000_0000_0000_0000,
            -0x8000_0000_0000_0000 <= y <= 0x8000_0000_0000_0000,
            -0x8000_0000_0000_0000 <= z <= 0x8000_0000_0000_0000,
        ensures
            r == x * x + y * y + z * z,
    {
        assert(0 <= x * x <= 0x4000_0000_0000_0000_0000_0000_0000_0000) by (nonlinear_arith)
            requires
                -0x8000_0000_0000_0000 <= x <= 0x8000_0000_0000_0000,
        ;
        assert(0 <= y * y <= 0x4000_0000_0000_0000_0000_0000_0000_0000) by (nonlinear_arith)
            requires
                -0x8000_0000_0000_0000 <= y <= 0x8000_0000_0000_0000,
        ;
        assert(0 <= z * z <= 0x4000_0000_0000_0000_0000_0000_0000_0000) by (nonlinear_arith)
            requires
                -0x8000_0000_0000_0000 <= z <= 0x8000_0000_0000_0000,
        ;
        (x * x) as u128 + (y * y) as u128 + (z * z) as u128
    }

    /// The length: the square root of the exact sum of the squared
    /// components, rounded down. It is zero for the zero vector only.
    pub fn norm(&self) -> (r: Scalar)
        ensures
            r == self.norm_spec(),
            r.raw >= 0,
            r.raw > 0 <==> *self != Vec3::zero(),
    {
        let sum = Vec3::wide_square_sum(
            self.x.raw as i128,
            self.y.raw as i128,
            self.z.raw as i128,
        );
        let root: u64 = isqrt(sum);
        proof {
            lemma_floor_sqrt_unique(root as int, sum as int);
            lemma_norm_of_zero(*self);
        }
        if root > 0x7fff_ffff_ffff_ffff_u64 {
            Scalar { raw: i64::MAX }
        } else {
            Scalar { raw: root as i64 }
        }
    }

    /// Whether the vector has unit length, to within `UNIT_SLACK_RAW` raw
    /// units.
    pub fn has_unit_length(&self) -> (r: bool)
        ensures
            r == self.is_unit(),
    {
        let length = self.norm();
        SCALE - UNIT_SLACK_RAW <= length.raw && length.raw <= SCALE + UNIT_SLACK_RAW
    }

    /// The size of a raw value.
    fn size_of(raw: i64) -> (r: u64)
        ensures
            r == size(raw as int),
    {
        if raw >= 0 {
            raw as u64
        } else {
            (-(raw as i128)) as u64
        }
    }

    /// The size of the largest raw component.
    fn largest_size(&self) -> (r: u64)
        ensures
            r == self.reach(),
    {
        let x = Vec3::size_of(self.x.raw);
        let y = Vec3::size_of(self.y.raw);
        let z = Vec3::size_of(self.z.raw);
        if x >= y && x >= z {
            x
        } else if y >= z {
            y
        } else {
            z
        }
    }

    /// The vector divided by its length: the unit vector in its direction.
    /// The zero vector has no direction, so it is left out.
    pub fn normalize(self) -> (r: Vec3)
        requires
            self.norm_spec().raw > 0,
        ensures
            r == self.normalize_spec(),
            r.is_unit(),
            self.keeps_signs(r),
    {
        proof {
            lemma_norm_of_zero(self);
            lemma_normalize_is_unit(self);
            lemma_normalize_keeps_signs(self);
        }
        let reach = self.largest_size();
        let m: i128 = if reach >= SCALE as u64 {
            1
        } else {
            (SCALE as u64 / reach + 1) as i128
        };
        proof {
            lemma_boost(self.reach());
            lemma_boosted_components(self);
        }
        let wx: i128 = m * self.x.raw as i128;
        let wy: i128 = m * self.y.raw as i128;
        let wz: i128 = m * self.z.raw as i128;
        let sum = Vec3::wide_square_sum(wx, wy, wz);
        let n: i128 = isqrt(sum) as i128;
        proof {
            lemma_floor_sqrt_unique(n as int, sum as int);
            assert(wx * SCALE == m * self.x.raw * SCALE) by (nonlinear_arith)
                requires
                    wx == m * self.x.raw,
            ;
            assert(wy * SCALE == m * self.y.raw * SCALE) by (nonlinear_arith)
                requires
                    wy == m * self.y.raw,
            ;
            assert(wz * SCALE == m * self.z.raw * SCALE) by (nonlinear_arith)
                requires
                    wz == m * self.z.raw,
            ;
            assert(-0x4000_0000_0000_0000_0000_0000 < wx * SCALE < 0x4000_0000_0000_0000_0000_0000
                && -0x4000_0000_0000_0000_0000_0000 < wy * SCALE
                < 0x4000_0000_0000_0000_0000_0000 && -0x4000_0000_0000_0000_0000_0000 < wz
                * SCALE < 0x4000_0000_0000_0000_0000_0000) by (nonlinear_arith)
                requires
                    -0x8000_0000_0000_0000 <= wx <= 0x8000_0000_0000_0000,
                    -0x8000_0000_0000_0000 <= wy <= 0x8000_0000_0000_0000,
                    -0x8000_0000_0000_0000 <= wz <= 0x8000_0000_0000_0000,
                    SCALE == 1_000_000_000,
            ;
        }
        Vec3 {
            x: Scalar { raw: floor_div(wx * SCALE as i128, n) as i64 },
            y: Scalar { raw: floor_div(wy * SCALE as i128, n) as i64 },
            z: Scalar { raw: floor_div(wz * SCALE as i128, n) as i64 },
        }
    }

    /// The cross product.
    pub fn cross(&self, other: &Vec3) -> (r: Vec3)
        ensures
            r == self.cross_spec(*other),
    {
        Vec3 {
            x: self.y.mul(other.z).sub(self.z.mul(other.y)),
            y: self.z.mul(other.x).sub(self.x.mul(other.z)),
            z: self.x.mul(other.y).sub(self.y.mul(other.x)),
        }
    }

    /// The sum, component by component.
    pub fn add(self, other: Vec3) -> (r: Vec3)
        ensures
            r == self.plus(other),
    {
        Vec3 { x: self.x.add(other.x), y: self.y.add(other.y), z: self.z.add(other.z) }
    }

    /// The difference, component by component.
    pub fn sub(self, other: Vec3) -> (r: Vec3)
        ensures
            r == self.minus(other),
    {
        Vec3 { x: self.x.sub(other.x), y: self.y.sub(other.y), z: self.z.sub(other.z) }
    }

    /// The opposite vector.
    pub fn neg(self) -> (r: Vec3)
        ensures
            r == self.negated(),
    {
        Vec3 { x: self.x.neg(), y: self.y.neg(), z: self.z.neg() }
    }

    /// The product component by component, as of two colours.
    pub fn mul(self, other: Vec3) -> (r: Vec3)
        ensures
            r == self.times(other),
    {
        Vec3 { x: self.x.mul(other.x), y: self.y.mul(other.y), z: self.z.mul(other.z) }
    }

    /// Every component multiplied by `a`.
    pub fn scale(self, a: Scalar) -> (r: Vec3)
        ensures
            r == self.scaled(a),
    {
        Vec3 { x: a.mul(self.x), y: a.mul(self.y), z: a.mul(self.z) }
    }

    /// Every component divided by `a`.
    pub fn div(self, a: Scalar) -> (r: Vec3)
        ensures
            r == self.over(a),
    {
        Vec3 { x: self.x.div(a), y: self.y.div(a), z: self.z.div(a) }
    }
}

/// A point lifted from the disk lies on the upper half of the sphere, not
/// above its pole: its height is between zero and one.
pub proof fn lemma_lifted_height(d: Vec3)
    ensures
        0 <= Vec3::lifted(d).z.raw <= SCALE,
{
    lemma_square_not_negative(d.x);
    lemma_square_not_negative(d.y);
    let rest = Scalar::one().minus(d.x.times(d.x)).minus(d.y.times(d.y));
    let m = Scalar::zero().max_spec(rest);
    assert(0 <= m.raw <= SCALE);
    lemma_sqrt_spec_raw(m);
    let n = m.raw * SCALE;
    assert(0 <= n <= SCALE * SCALE) by (nonlinear_arith)
        requires
            0 <= m.raw <= SCALE,
            n == m.raw * SCALE,
            SCALE == 1_000_000_000,
    ;
    lemma_floor_sqrt_exists(n);
    let r = floor_sqrt(n);
    assert(r <= SCALE) by (nonlinear_arith)
        requires
            0 <= r,
            r * r <= n,
            n <= SCALE * SCALE,
            SCALE == 1_000_000_000,
    ;
}

/// The length of a vector is zero for the zero vector, and for no other.
pub proof fn lemma_norm_of_zero(v: Vec3)
    ensures
        v.norm_spec().raw >= 0,
        v.norm_spec().raw > 0 <==> v != Vec3::zero(),
        v.reach() > 0 <==> v != Vec3::zero(),
{
    let sum = v.square_sum();
    assert(sum >= 0 && (sum == 0 <==> v.x.raw == 0 && v.y.raw == 0 && v.z.raw == 0))
        by (nonlinear_arith)
        requires
            sum == v.x.raw * v.x.raw + v.y.raw * v.y.raw + v.z.raw * v.z.raw,
    ;
    lemma_floor_sqrt_exists(sum);
    let r = floor_sqrt(sum);
    assert(r > 0 <==> sum > 0) by (nonlinear_arith)
        requires
            0 <= r,
            r * r <= sum < (r + 1) * (r + 1),
    ;
}

/// A vector's boost brings its reach to at least one and keeps it below
/// the end of the scalars' range.
pub proof fn lemma_boost(reach: int)
    requires
        0 < reach <= 0x8000_0000_0000_0000,
    ensures
        1 <= boost(reach) <= SCALE + 1,
        SCALE <= boost(reach) * reach <= 0x8000_0000_0000_0000,
{
    if reach < SCALE {
        let q = (SCALE as int) / reach;
        let rest = (SCALE as int) % reach;
        lemma_fundamental_div_mod(SCALE as int, reach);
        lemma_mod_bound(SCALE as int, reach);
        lemma_div_pos_is_pos(SCALE as int, reach);
        assert(SCALE <= (q + 1) * reach <= 2 * SCALE && q + 1 <= SCALE + 1) by (nonlinear_arith)
            requires
                SCALE == reach * q + rest,
                0 <= rest < reach,
                0 < reach < SCALE,
                0 <= q,
        ;
    }
}

/// The components of a boosted vector stay within the scalars' range.
proof fn lemma_boosted_components(v: Vec3)
    requires
        v != Vec3::zero(),
    ensures
        -0x8000_0000_0000_0000 <= boost(v.reach()) * v.x.raw <= 0x8000_0000_0000_0000,
        -0x8000_0000_0000_0000 <= boost(v.reach()) * v.y.raw <= 0x8000_0000_0000_0000,
        -0x8000_0000_0000_0000 <= boost(v.reach()) * v.z.raw <= 0x8000_0000_0000_0000,
{
    lemma_norm_of_zero(v);
    let k = v.reach();
    let m = boost(k);
    lemma_boost(k);
    assert(-(m * k) <= m * v.x.raw <= m * k) by (nonlinear_arith)
        requires
            -k <= v.x.raw <= k,
            m >= 1,
    ;
    assert(-(m * k) <= m * v.y.raw <= m * k) by (nonlinear_arith)
        requires
            -k <= v.y.raw <= k,
            m >= 1,
    ;
    assert(-(m * k) <= m * v.z.raw <= m * k) by (nonlinear_arith)
        requires
            -k <= v.z.raw <= k,
            m >= 1,
    ;
}

/// One component of a normalized vector: for a dividend `a` of size at most
/// `SCALE * n`, the quotient `a / n` has size at most `SCALE`, and the
/// square of `n` times the quotient is close to the square of `a`.
#[verifier::rlimit(60)]
proof fn lemma_quotient_square(a: int, n: int, r: int)
    requires
        n > 0,
        -SCALE * n <= a <= SCALE * n,
        r == a / n,
    ensures
        -SCALE <= r <= SCALE,
        a * a - 2 * SCALE * (n * n) <= (n * n) * (r * r) <= a * a + 2 * SCALE * (n * n) + n * n,
{
    let rho = a % n;
    lemma_fundamental_div_mod(a, n);
    lemma_mod_bound(a, n);
    assert(-SCALE <= r <= SCALE) by (nonlinear_arith)
        requires
            a == n * r + rho,
            0 <= rho < n,
            -SCALE * n <= a <= SCALE * n,
            n > 0,
    ;
    let nn = n * n;
    let whole = (n * n) * (r * r);
    let cross = a * rho;
    let rest = rho * rho;
    assert(whole == a * a - 2 * cross + rest) by (nonlinear_arith)
        requires
            a == n * r + rho,
            whole == (n * n) * (r * r),
            cross == a * rho,
            rest == rho * rho,
    ;
    assert(-(SCALE * nn) <= cross <= SCALE * nn) by (nonlinear_arith)
        requires
            -SCALE * n <= a <= SCALE * n,
            0 <= rho < n,
            n > 0,
            nn == n * n,
            cross == a * rho,
    ;
    assert(0 <= rest <= nn) by (nonlinear_arith)
        requires
            0 <= rho < n,
            rest == rho * rho,
            nn == n * n,
    ;
    assert(2 * SCALE * nn == 2 * (SCALE * nn)) by (nonlinear_arith);
}

/// Three quotients by the rounded-down length `n >= SCALE` of a vector
/// `(wx, wy, wz)` make a vector of unit length, to within the slack.
#[verifier::rlimit(60)]
proof fn lemma_unit_from_quotients(wx: int, wy: int, wz: int, n: int, rx: int, ry: int, rz: int)
    requires
        n >= SCALE,
        is_floor_sqrt(n, wx * wx + wy * wy + wz * wz),
        rx == (wx * SCALE) / n,
        ry == (wy * SCALE) / n,
        rz == (wz * SCALE) / n,
    ensures
        -SCALE <= rx <= SCALE,
        -SCALE <= ry <= SCALE,
        -SCALE <= rz <= SCALE,
        (SCALE - 4) * (SCALE - 4) <= rx * rx + ry * ry + rz * rz < (SCALE + 4) * (SCALE + 4),
{
    let sum = wx * wx + wy * wy + wz * wz;
    let nn = n * n;
    assert(nn > 0) by (nonlinear_arith)
        requires
            n >= 1,
            nn == n * n,
    ;
    // No component is longer than the whole.
    assert(-n <= wx <= n && -n <= wy <= n && -n <= wz <= n) by (nonlinear_arith)
        requires
            wx * wx + wy * wy + wz * wz < (n + 1) * (n + 1),
            n >= 0,
    ;
    let ax = wx * SCALE;
    let ay = wy * SCALE;
    let az = wz * SCALE;
    assert(-SCALE * n <= ax <= SCALE * n && -SCALE * n <= ay <= SCALE * n && -SCALE * n <= az
        <= SCALE * n) by (nonlinear_arith)
        requires
            -n <= wx <= n,
            -n <= wy <= n,
            -n <= wz <= n,
            ax == wx * SCALE,
            ay == wy * SCALE,
            az == wz * SCALE,
            SCALE == 1_000_000_000,
    ;
    lemma_quotient_square(ax, n, rx);
    lemma_quotient_square(ay, n, ry);
    lemma_quotient_square(az, n, rz);
    let squares = rx * rx + ry * ry + rz * rz;
    let big = ax * ax + ay * ay + az * az;
    assert(big == (SCALE * SCALE) * sum) by (nonlinear_arith)
        requires
            big == ax * ax + ay * ay + az * az,
            ax == wx * SCALE,
            ay == wy * SCALE,
            az == wz * SCALE,
            sum == wx * wx + wy * wy + wz * wz,
    ;
    assert(nn * squares == nn * (rx * rx) + nn * (ry * ry) + nn * (rz * rz))
        by (nonlinear_arith)
        requires
            squares == rx * rx + ry * ry + rz * rz,
    ;
    let px = (n * n) * (rx * rx);
    let py = (n * n) * (ry * ry);
    let pz = (n * n) * (rz * rz);
    assert(px == nn * (rx * rx) && py == nn * (ry * ry) && pz == nn * (rz * rz));
    assert(2 * SCALE * nn == 2 * (SCALE * nn) && 6 * SCALE * nn == 6 * (SCALE * nn))
        by (nonlinear_arith);
    assert(ax * ax - 2 * (SCALE * nn) <= px <= ax * ax + 2 * (SCALE * nn) + nn);
    assert(ay * ay - 2 * (SCALE * nn) <= py <= ay * ay + 2 * (SCALE * nn) + nn);
    assert(az * az - 2 * (SCALE * nn) <= pz <= az * az + 2 * (SCALE * nn) + nn);
    assert(big - 6 * (SCALE * nn) <= nn * squares <= big + 6 * (SCALE * nn) + 3 * nn);
    // From below.
    assert((SCALE * SCALE) * sum >= (SCALE * SCALE) * nn) by (nonlinear_arith)
        requires
            sum >= nn,
    ;
    assert(nn * squares >= nn * (SCALE * SCALE - 6 * SCALE)) by (nonlinear_arith)
        requires
            nn * squares >= big - 6 * SCALE * nn,
            big >= (SCALE * SCALE) * nn,
    ;
    assert(squares >= SCALE * SCALE - 6 * SCALE) by (nonlinear_arith)
        requires
            nn * squares >= nn * (SCALE * SCALE - 6 * SCALE),
            nn > 0,
    ;
    // From above.
    assert((SCALE * SCALE) * sum < (SCALE * SCALE) * ((n + 1) * (n + 1))) by (nonlinear_arith)
        requires
            sum < (n + 1) * (n + 1),
            SCALE == 1_000_000_000,
    ;
    assert((SCALE * SCALE) * ((n + 1) * (n + 1)) <= nn * (SCALE * SCALE + 2 * SCALE + 1))
        by (nonlinear_arith)
        requires
            n >= SCALE,
            nn == n * n,
            SCALE == 1_000_000_000,
    ;
    assert(nn * squares < nn * (SCALE * SCALE + 8 * SCALE + 4)) by (nonlinear_arith)
        requires
            nn * squares <= big + 6 * SCALE * nn + 3 * nn,
            big < nn * (SCALE * SCALE + 2 * SCALE + 1),
    ;
    assert(squares < SCALE * SCALE + 8 * SCALE + 4) by (nonlinear_arith)
        requires
            nn * squares < nn * (SCALE * SCALE + 8 * SCALE + 4),
            nn > 0,
    ;
}

/// A normalized vector has unit length, to within the slack, and no
/// component of it is larger than one.
#[verifier::rlimit(60)]
pub proof fn lemma_normalize_is_unit(v: Vec3)
    requires
        v != Vec3::zero(),
    ensures
        v.normalize_spec().is_unit(),
        -SCALE <= v.normalize_spec().x.raw <= SCALE,
        -SCALE <= v.normalize_spec().y.raw <= SCALE,
        -SCALE <= v.normalize_spec().z.raw <= SCALE,
        floor_sqrt(v.boosted_square_sum(boost(v.reach()))) >= SCALE,
        v.normalize_spec().x.raw == (boost(v.reach()) * v.x.raw * SCALE) / floor_sqrt(
            v.boosted_square_sum(boost(v.reach())),
        ),
        v.normalize_spec().y.raw == (boost(v.reach()) * v.y.raw * SCALE) / floor_sqrt(
            v.boosted_square_sum(boost(v.reach())),
        ),
        v.normalize_spec().z.raw == (boost(v.reach()) * v.z.raw * SCALE) / floor_sqrt(
            v.boosted_square_sum(boost(v.reach())),
        ),
{
    lemma_norm_of_zero(v);
    let k = v.reach();
    let m = boost(k);
    lemma_boost(k);
    let wx = m * v.x.raw;
    let wy = m * v.y.raw;
    let wz = m * v.z.raw;
    let sum = v.boosted_square_sum(m);
    assert(m * (-k) == -(m * k)) by (nonlinear_arith);
    assert(wx == m * k || wx == -(m * k) || wy == m * k || wy == -(m * k) || wz == m * k || wz
        == -(m * k)) by {
        if v.x.raw == k || v.x.raw == -k {
        } else if v.y.raw == k || v.y.raw == -k {
        } else {
            assert(v.z.raw == k || v.z.raw == -k);
        }
    }
    assert(sum >= (m * k) * (m * k)) by (nonlinear_arith)
        requires
            sum == wx * wx + wy * wy + wz * wz,
            wx == m * k || wx == -(m * k) || wy == m * k || wy == -(m * k) || wz == m * k || wz
                == -(m * k),
    ;
    assert((m * k) * (m * k) >= SCALE * SCALE) by (nonlinear_arith)
        requires
            m * k >= SCALE,
            SCALE == 1_000_000_000,
    ;
    lemma_floor_sqrt_exists(sum);
    let n = floor_sqrt(sum);
    assert(n >= SCALE) by (nonlinear_arith)
        requires
            0 <= n,
            sum < (n + 1) * (n + 1),
            sum >= SCALE * SCALE,
            SCALE == 1_000_000_000,
    ;
    let rx = (wx * SCALE) / n;
    let ry = (wy * SCALE) / n;
    let rz = (wz * SCALE) / n;
    lemma_unit_from_quotients(wx, wy, wz, n, rx, ry, rz);
    let r = v.normalize_spec();
    assert(wx * SCALE == m * v.x.raw * SCALE && wy * SCALE == m * v.y.raw * SCALE && wz * SCALE
        == m * v.z.raw * SCALE);
    assert(r.x.raw == rx && r.y.raw == ry && r.z.raw == rz);
    let squares = r.square_sum();
    lemma_floor_sqrt_exists(squares);
    let length = floor_sqrt(squares);
    assert(SCALE - 4 <= length <= SCALE + 4) by (nonlinear_arith)
        requires
            0 <= length,
            length * length <= squares < (length + 1) * (length + 1),
            (SCALE - 4) * (SCALE - 4) <= squares < (SCALE + 4) * (SCALE + 4),
            SCALE == 1_000_000_000,
    ;
}

/// A quotient by a positive number has the sign of its dividend, or is
/// zero.
proof fn lemma_quotient_sign(c: int, k: int, n: int)
    requires
        k > 0,
        n > 0,
    ensures
        c >= 0 ==> (k * c) / n >= 0,
        c <= 0 ==> (k * c) / n <= 0,
{
    if c >= 0 {
        assert(k * c >= 0) by (nonlinear_arith)
            requires
                k > 0,
                c >= 0,
        ;
        lemma_div_pos_is_pos(k * c, n);
    }
    if c <= 0 {
        assert(k * c <= 0) by (nonlinear_arith)
            requires
                k > 0,
                c <= 0,
        ;
        lemma_div_is_ordered(k * c, 0, n);
        lemma_div_of0(n);
    }
}

/// No component of a normalized vector points the other way than the
/// same component of the vector.
pub proof fn lemma_normalize_keeps_signs(v: Vec3)
    requires
        v != Vec3::zero(),
    ensures
        v.keeps_signs(v.normalize_spec()),
{
    lemma_norm_of_zero(v);
    lemma_normalize_is_unit(v);
    lemma_boost(v.reach());
    let m = boost(v.reach());
    let n = floor_sqrt(v.boosted_square_sum(m));
    let k = m * SCALE;
    assert(k > 0) by (nonlinear_arith)
        requires
            m >= 1,
            k == m * SCALE,
            SCALE == 1_000_000_000,
    ;
    assert(m * v.x.raw * SCALE == k * v.x.raw && m * v.y.raw * SCALE == k * v.y.raw && m
        * v.z.raw * SCALE == k * v.z.raw) by (nonlinear_arith)
        requires
            k == m * SCALE,
    ;
    lemma_quotient_sign(v.x.raw as int, k, n);
    lemma_quotient_sign(v.y.raw as int, k, n);
    lemma_quotient_sign(v.z.raw as int, k, n);
}

/// A unit vector is not parallel to the axis that it is crossed with to
/// get a tangent: the cross product is not the zero vector.
pub proof fn lemma_unit_crosses_reference_axis(v: Vec3)
    requires
        v.is_unit(),
    ensures
        v.cross_spec(v.reference_axis()) != Vec3::zero(),
        v.cross_spec(v.reference_axis()).norm_spec().raw > 0,
{
    let c = v.cross_spec(v.reference_axis());
    lemma_div_multiples_vanish(v.x.raw as int, SCALE as int);
    lemma_div_multiples_vanish(v.y.raw as int, SCALE as int);
    lemma_div_multiples_vanish(v.z.raw as int, SCALE as int);
    assert(v.x.raw * SCALE == SCALE * v.x.raw && v.y.raw * SCALE == SCALE * v.y.raw && v.z.raw
        * SCALE == SCALE * v.z.raw) by (nonlinear_arith);
    assert(v.x.raw * 0 == 0 && v.y.raw * 0 == 0 && v.z.raw * 0 == 0);
    if v.y.abs_spec().raw > NEARLY_PARALLEL_RAW {
        // Crossed with the X axis: the last component is minus `y`.
        assert(c.z.raw != 0);
    } else {
        // Crossed with the Y axis: the first component is minus `z`, the
        // last is `x`. Were both zero, the vector would be too short.
        if v.x.raw == 0 && v.z.raw == 0 {
            let sum = v.square_sum();
            lemma_floor_sqrt_exists(sum);
            let length = floor_sqrt(sum);
            assert(length <= NEARLY_PARALLEL_RAW) by (nonlinear_arith)
                requires
                    0 <= length,
                    length * length <= sum,
                    sum == v.y.raw * v.y.raw,
                    -900_000_000 <= v.y.raw <= 900_000_000,
                    NEARLY_PARALLEL_RAW == 900_000_000,
            ;
            assert(false);
        }
        assert(c.x.raw != 0 || c.z.raw != 0);
    }
    lemma_norm_of_zero(c);
}

/// No component of a vector is longer than the vector: where the length
/// is at most `bound`, so is the size of each component.
pub proof fn lemma_components_within_length(v: Vec3, bound: int)
    requires
        0 <= bound < i64::MAX,
        v.norm_spec().raw <= bound,
    ensures
        -bound <= v.x.raw <= bound,
        -bound <= v.y.raw <= bound,
        -bound <= v.z.raw <= bound,
{
    let sum = v.square_sum();
    assert(sum >= 0) by (nonlinear_arith)
        requires
            sum == v.x.raw * v.x.raw + v.y.raw * v.y.raw + v.z.raw * v.z.raw,
    ;
    lemma_floor_sqrt_exists(sum);
    let n = floor_sqrt(sum);
    assert(-bound <= v.x.raw <= bound && -bound <= v.y.raw <= bound && -bound <= v.z.raw
        <= bound) by (nonlinear_arith)
        requires
            sum == v.x.raw * v.x.raw + v.y.raw * v.y.raw + v.z.raw * v.z.raw,
            sum < (n + 1) * (n + 1),
            0 <= n <= bound,
    ;
}

/// The opposite of a unit vector is a unit vector.
pub proof fn lemma_negated_is_unit(v: Vec3)
    requires
        v.is_unit(),
    ensures
        v.negated().is_unit(),
        v.negated().norm_spec() == v.norm_spec(),
{
    lemma_components_within_length(v, SCALE + UNIT_SLACK_RAW);
    let w = v.negated();
    assert(w.square_sum() == v.square_sum()) by (nonlinear_arith)
        requires
            w.x.raw == -v.x.raw,
            w.y.raw == -v.y.raw,
            w.z.raw == -v.z.raw,
            w.square_sum() == w.x.raw * w.x.raw + w.y.raw * w.y.raw + w.z.raw * w.z.raw,
            v.square_sum() == v.x.raw * v.x.raw + v.y.raw * v.y.raw + v.z.raw * v.z.raw,
    ;
}

} // verus!
