//! Rays.

use vstd::prelude::*;
use crate::math::vec3::Vec3;
use crate::scalar::Scalar;

verus! {

/// The raw value of the least parameter at which a new ray is hit: `0.0001`.
/// It keeps a ray from hitting the surface it starts on.
pub const EPSILON_RAW: i64 = 100_000;

/// A ray: the points `origin + direction * t` for `t` from `t_min` to
/// `t_max`. The direction need not have unit length.
#[derive(Clone, Copy, Debug, PartialEq, Eq, Structural)]
pub struct Ray {
    pub origin: Vec3,
    pub direction: Vec3,
    pub t_min: Scalar,
    pub t_max: Scalar,
}

impl Ray {
    /// The ray from `origin` along `direction`, unbounded ahead.
    pub open spec fn new_spec(origin: Vec3, direction: Vec3) -> Ray {
        Ray {
            origin,
            direction,
            t_min: Scalar { raw: EPSILON_RAW },
            t_max: Scalar::max_value(),
        }
    }

    /// Whether the ray's interval holds the parameter `t`.
    pub open spec fn holds(self, t: Scalar) -> bool {
        self.t_min.raw <= t.raw <= self.t_max.raw
    }

    /// The point at parameter `t`.
    pub open spec fn at_spec(self, t: Scalar) -> Vec3 {
        self.origin.plus(self.direction.scaled(t))
    }

    /// The ray from `origin` along `direction`; it starts a little ahead of
    /// its origin and has no end.
    pub fn new(origin: Vec3, direction: Vec3) -> (r: Ray)
        ensures
            r == Ray::new_spec(origin, direction),
    {
        Ray {
            origin,
            direction,
            t_min: Scalar { raw: EPSILON_RAW },
            t_max: Scalar { raw: i64::MAX },
        }
    }

    /// The point at parameter `t`.
    pub fn at(&self, t: Scalar) -> (r: Vec3)
        ensures
            r == self.at_spec(t),
    {
        self.origin.add(self.direction.scale(t))
    }
}

} // verus!
