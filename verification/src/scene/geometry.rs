//! Surfaces and how a ray meets them.

use vstd::prelude::*;
use crate::math::ray::Ray;
use crate::math::vec3::{lemma_negated_is_unit, lemma_norm_of_zero, Vec3};
use crate::scalar::{
    lemma_floor_sqrt_above_square, lemma_over_keeps_order, lemma_over_not_positive,
    lemma_sqrt_spec_raw,
    lemma_square_not_negative, lemma_times_positive_negative, Scalar, SCALE,
};

verus! {

/// The raw value of the least `|D . N|` at which a ray still meets a plane:
/// `0.001`. Below it the ray counts as parallel to the plane.
pub const PARALLEL_RAW: i64 = 1_000_000;

/// Where a ray met a surface.
#[derive(Clone, Copy, Debug, PartialEq, Eq, Structural)]
pub struct HitRecord {
    /// The ray's parameter at the point.
    pub t: Scalar,
    /// The point itself.
    pub point: Vec3,
    /// The surface's normal at the point, of unit length.
    pub normal: Vec3,
    /// The place of the surface's material in the scene's list of materials.
    pub material: usize,
}

/// A surface that a ray can meet.
pub trait Object {
    /// The hit of `ray` on this surface, if there is one.
    spec fn hit_spec(&self, ray: Ray) -> Option<HitRecord>;

    /// The place of this surface's material in the scene's list.
    spec fn material_spec(&self) -> usize;

    /// Whether the surface is well formed, so that the normals of its hits
    /// have unit length.
    spec fn valid(&self) -> bool;

    /// Intersects `ray` with this surface. The normal of a hit on a well
    /// formed surface has unit length.
    fn ray_intersection(&self, ray: &Ray) -> (r: Option<HitRecord>)
        ensures
            r == self.hit_spec(*ray),
            self.valid() ==> (r matches Some(hit) ==> hit.normal.is_unit()),
    ;

    /// Whether the surface is well formed.
    fn is_valid(&self) -> (r: bool)
        ensures
            r == self.valid(),
    ;

    /// The place of this surface's material in the scene's list.
    fn material(&self) -> (r: usize)
        ensures
            r == self.material_spec(),
    ;
}

/// A sphere.
#[derive(Clone, Copy, Debug, PartialEq, Eq, Structural)]
pub struct Sphere {
    pub center: Vec3,
    pub radius: Scalar,
    pub material: usize,
}

impl Sphere {
    /// The coefficient `a = |D|^2` of the quadratic `|O + t D - C|^2 = r^2`.
    pub open spec fn quad_a(self, ray: Ray) -> Scalar {
        ray.direction.norm_sq_spec()
    }

    /// The coefficient `b = 2 D . (O - C)`.
    pub open spec fn quad_b(self, ray: Ray) -> Scalar {
        Scalar::whole(2).times(ray.direction.dot_spec(ray.origin.minus(self.center)))
    }

    /// The coefficient `c = |O - C|^2 - r^2`; it is negative where the ray
    /// starts inside the sphere.
    pub open spec fn quad_c(self, ray: Ray) -> Scalar {
        ray.origin.minus(self.center).norm_sq_spec().minus(self.radius.times(self.radius))
    }

    /// The discriminant `b^2 - 4 a c`.
    pub open spec fn discriminant(self, ray: Ray) -> Scalar {
        let a = self.quad_a(ray);
        let b = self.quad_b(ray);
        let c = self.quad_c(ray);
        b.times(b).minus(Scalar::whole(4).times(a).times(c))
    }

    /// The near root `(-b - sqrt(disc)) / (2 a)`.
    pub open spec fn near_root(self, ray: Ray) -> Scalar {
        let a = self.quad_a(ray);
        let b = self.quad_b(ray);
        b.negated().minus(self.discriminant(ray).sqrt_spec()).over(Scalar::whole(2).times(a))
    }

    /// The far root `(-b + sqrt(disc)) / (2 a)`.
    pub open spec fn far_root(self, ray: Ray) -> Scalar {
        let a = self.quad_a(ray);
        let b = self.quad_b(ray);
        b.negated().plus(self.discriminant(ray).sqrt_spec()).over(Scalar::whole(2).times(a))
    }

    /// The parameter at which `ray` meets the sphere: the near root where
    /// the ray's interval holds it, else the far root where the interval
    /// holds that; none where the discriminant is negative or the interval
    /// holds neither root.
    pub open spec fn hit_parameter(self, ray: Ray) -> Option<Scalar> {
        let t1 = self.near_root(ray);
        let t2 = self.far_root(ray);
        if self.discriminant(ray).raw < 0 {
            None
        } else if ray.holds(t1) {
            Some(t1)
        } else if ray.holds(t2) {
            Some(t2)
        } else {
            None
        }
    }

    /// Whether the point at parameter `t` has a normal: whether it is not
    /// the centre itself, as on a sphere too small to tell the two apart.
    pub open spec fn has_normal_at(self, ray: Ray, t: Scalar) -> bool {
        ray.at_spec(t).minus(self.center) != Vec3::zero()
    }

    /// The hit at parameter `t`: the normal points away from the centre,
    /// whichever side the ray comes from.
    pub open spec fn hit_at(self, ray: Ray, t: Scalar) -> HitRecord {
        let point = ray.at_spec(t);
        HitRecord {
            t,
            point,
            normal: point.minus(self.center).normalize_spec(),
            material: self.material,
        }
    }
}

impl Object for Sphere {
    open spec fn hit_spec(&self, ray: Ray) -> Option<HitRecord> {
        match self.hit_parameter(ray) {
            Some(t) => if self.has_normal_at(ray, t) {
                Some(self.hit_at(ray, t))
            } else {
                None
            },
            None => None,
        }
    }

    open spec fn material_spec(&self) -> usize {
        self.material
    }

    open spec fn valid(&self) -> bool {
        true
    }

    fn is_valid(&self) -> (r: bool) {
        true
    }

    /// Intersects `ray` with the sphere. A hit lies within the ray's
    /// interval, and its normal is the unit vector from the centre to the
    /// point that was hit. There is no hit at a point that is the centre
    /// itself.
    fn ray_intersection(&self, ray: &Ray) -> (r: Option<HitRecord>)
        ensures
            r is Some <==> (self.hit_parameter(*ray) matches Some(t) && self.has_normal_at(
                *ray,
                t,
            )),
            r matches Some(hit) ==> ray.holds(hit.t) && hit.point == ray.at_spec(hit.t)
                && hit.normal == hit.point.minus(self.center).normalize_spec()
                && hit.normal.is_unit(),
    {
        let oc = ray.origin.sub(self.center);
        let two = Scalar { raw: 2 * SCALE };
        let four = Scalar { raw: 4 * SCALE };

        let a = ray.direction.norm_sq();
        let b = two.mul(ray.direction.dot(&oc));
        let c = oc.norm_sq().sub(self.radius.mul(self.radius));

        let discriminant = b.mul(b).sub(four.mul(a).mul(c));

        if discriminant.raw < 0 {
            None
        } else {
            let sqrt_disc = discriminant.sqrt();
            let t1 = b.neg().sub(sqrt_disc).div(two.mul(a));
            let t2 = b.neg().add(sqrt_disc).div(two.mul(a));
            let t = if t1.raw >= ray.t_min.raw && t1.raw <= ray.t_max.raw {
                t1
            } else if t2.raw >= ray.t_min.raw && t2.raw <= ray.t_max.raw {
                t2
            } else {
                return None;
            };

            let point = ray.at(t);
            let outward = point.sub(self.center);
            if outward.x.raw == 0 && outward.y.raw == 0 && outward.z.raw == 0 {
                return None;
            }
            proof {
                lemma_norm_of_zero(outward);
            }
            let normal = outward.normalize();
            Some(HitRecord { t, point, normal, material: self.material })
        }
    }

    fn material(&self) -> (r: usize) {
        self.material
    }
}

/// A sphere is hit at the smallest root that the ray's interval holds.
///
/// For a ray with a direction of non-zero length (`a > 0`) the near root
/// is not above the far root; a hit is at one of the two, within the
/// interval, and at the near root wherever the interval holds that.
pub proof fn lemma_reports_smallest_root(sphere: Sphere, ray: Ray)
    requires
        sphere.quad_a(ray).raw > 0,
    ensures
        sphere.near_root(ray).raw <= sphere.far_root(ray).raw,
        sphere.hit_spec(ray) matches Some(hit) ==> ray.holds(hit.t) && (hit.t == sphere.near_root(
            ray,
        ) || hit.t == sphere.far_root(ray)) && (ray.holds(sphere.near_root(ray)) ==> hit.t
            == sphere.near_root(ray)),
        sphere.hit_parameter(ray) is None <==> sphere.discriminant(ray).raw < 0 || (!ray.holds(
            sphere.near_root(ray),
        ) && !ray.holds(sphere.far_root(ray))),
        sphere.hit_spec(ray) is Some <==> (sphere.hit_parameter(ray) matches Some(t)
            && sphere.has_normal_at(ray, t)),
{
    let a = sphere.quad_a(ray);
    let b = sphere.quad_b(ray);
    let root = sphere.discriminant(ray).sqrt_spec();
    let two_a = Scalar::whole(2).times(a);
    assert(2 * SCALE * a.raw / (SCALE as int) == 2 * a.raw) by (nonlinear_arith)
        requires
            SCALE == 1_000_000_000,
    ;
    lemma_sqrt_spec_raw(sphere.discriminant(ray));
    lemma_over_keeps_order(b.negated().minus(root), b.negated().plus(root), two_a);
}

/// A ray that starts inside a sphere meets it at the far root only.
///
/// For a ray whose interval starts above zero and whose origin lies inside
/// the sphere (`c < 0`), the near root is not positive, so the interval
/// does not hold it: there is a hit exactly where the interval holds the far
/// root and the point there is not the centre, and it is at the far root.
/// This is stated for rays with a direction of non-zero length (`a > 0`)
/// and a `b` whose square does not saturate.
pub proof fn lemma_inside_reports_far_root(sphere: Sphere, ray: Ray)
    requires
        ray.t_min.raw > 0,
        sphere.quad_c(ray).raw < 0,
        sphere.quad_a(ray).raw > 0,
        sphere.quad_b(ray).raw * sphere.quad_b(ray).raw / (SCALE as int) < i64::MAX,
    ensures
        sphere.near_root(ray).raw <= 0,
        !ray.holds(sphere.near_root(ray)),
        sphere.hit_parameter(ray) is Some <==> ray.holds(sphere.far_root(ray)),
        sphere.hit_spec(ray) is Some <==> ray.holds(sphere.far_root(ray)) && sphere.has_normal_at(
            ray,
            sphere.far_root(ray),
        ),
        sphere.hit_spec(ray) matches Some(hit) ==> hit.t == sphere.far_root(ray),
{
    let a = sphere.quad_a(ray);
    let b = sphere.quad_b(ray);
    let c = sphere.quad_c(ray);
    let four_a = Scalar::whole(4).times(a);
    let bb = b.times(b);
    let disc = sphere.discriminant(ray);
    let two_a = Scalar::whole(2).times(a);

    // 4 a and 2 a are positive, so 4 a c is negative and the discriminant
    // is above b * b.
    assert(4 * SCALE * a.raw / (SCALE as int) == 4 * a.raw) by (nonlinear_arith)
        requires
            SCALE == 1_000_000_000,
    ;
    assert(2 * SCALE * a.raw / (SCALE as int) == 2 * a.raw) by (nonlinear_arith)
        requires
            SCALE == 1_000_000_000,
    ;
    assert(four_a.raw > 0);
    assert(two_a.raw > 0);
    lemma_times_positive_negative(four_a, c);
    lemma_square_not_negative(b);
    assert(disc.raw >= bb.raw + 1);

    // So its square root is at least the size of b.
    let q = b.raw * b.raw / (SCALE as int);
    vstd::arithmetic::div_mod::lemma_fundamental_div_mod(b.raw * b.raw, SCALE as int);
    vstd::arithmetic::div_mod::lemma_mod_bound(b.raw * b.raw, SCALE as int);
    assert(b.raw * b.raw < disc.raw * SCALE) by (nonlinear_arith)
        requires
            b.raw * b.raw == SCALE * q + (b.raw * b.raw) % (SCALE as int),
            (b.raw * b.raw) % (SCALE as int) < SCALE,
            disc.raw >= q + 1,
            SCALE == 1_000_000_000,
    ;
    lemma_floor_sqrt_above_square(b.raw as int, disc.raw * SCALE);
    let root = disc.sqrt_spec();
    lemma_sqrt_spec_raw(disc);
    assert(root.raw >= -b.raw);

    // The near root's dividend is then not positive, and neither is the root.
    let dividend = b.negated().minus(root);
    assert(dividend.raw <= 0);
    lemma_over_not_positive(dividend, two_a);
}

/// A flat disk, or a whole plane.
#[derive(Clone, Copy, Debug, PartialEq, Eq, Structural)]
pub struct Plane {
    /// A point of the plane; the middle of the disk.
    pub center: Vec3,
    /// The plane's normal, of unit length.
    pub normal: Vec3,
    /// The disk's radius; a negative size means the whole plane.
    pub size: Scalar,
    pub material: usize,
}

impl Plane {
    /// `D . N`: how fast the ray nears the plane.
    pub open spec fn approach(self, ray: Ray) -> Scalar {
        ray.direction.dot_spec(self.normal)
    }

    /// `(C - O) . N`: how far the ray's origin is from the plane, along the
    /// normal.
    pub open spec fn offset(self, ray: Ray) -> Scalar {
        self.center.minus(ray.origin).dot_spec(self.normal)
    }

    /// Whether the ray counts as parallel to the plane.
    pub open spec fn is_parallel(self, ray: Ray) -> bool {
        self.approach(ray).abs_spec().raw < PARALLEL_RAW
    }

    /// Whether the ray moves away from the plane: the signs of `D . N` and
    /// of `(C - O) . N` differ. A ray that starts on the plane moves away
    /// from it, whichever way it goes.
    pub open spec fn leads_away(self, ray: Ray) -> bool {
        self.approach(ray).signum_spec() != self.offset(ray).signum_spec()
    }

    /// The parameter `(C - O) . N / (D . N)` at which the ray's line meets
    /// the plane.
    pub open spec fn plane_parameter(self, ray: Ray) -> Scalar {
        self.offset(ray).over(self.approach(ray))
    }

    /// How far from the centre the ray's line meets the plane.
    pub open spec fn distance_from_center(self, ray: Ray) -> Scalar {
        ray.at_spec(self.plane_parameter(ray)).minus(self.center).norm_spec()
    }

    /// Whether the surface reaches as far as `distance` from its centre.
    pub open spec fn covers(self, distance: Scalar) -> bool {
        self.size.raw < 0 || distance.raw <= self.size.raw
    }

    /// The normal turned to face the ray.
    pub open spec fn facing_normal(self, ray: Ray) -> Vec3 {
        if self.approach(ray).raw < 0 {
            self.normal
        } else {
            self.normal.negated()
        }
    }
}

impl Object for Plane {
    open spec fn hit_spec(&self, ray: Ray) -> Option<HitRecord> {
        if self.is_parallel(ray) || self.leads_away(ray) || !self.covers(
            self.distance_from_center(ray),
        ) {
            None
        } else {
            Some(
                HitRecord {
                    t: self.plane_parameter(ray),
                    point: ray.at_spec(self.plane_parameter(ray)),
                    normal: self.facing_normal(ray),
                    material: self.material,
                },
            )
        }
    }

    open spec fn material_spec(&self) -> usize {
        self.material
    }

    open spec fn valid(&self) -> bool {
        self.normal.is_unit()
    }

    fn is_valid(&self) -> (r: bool) {
        self.normal.has_unit_length()
    }

    /// Intersects `ray` with the plane. A ray that counts as parallel to
    /// the plane, or that moves away from it, does not hit it. A disk is
    /// hit only within its size; a plane of negative size wherever the
    /// ray's line meets it.
    fn ray_intersection(&self, ray: &Ray) -> (r: Option<HitRecord>)
        ensures
            self.is_parallel(*ray) ==> r is None,
            self.leads_away(*ray) ==> r is None,
            self.size.raw >= 0 && self.distance_from_center(*ray).raw > self.size.raw ==> r
                is None,
            r is Some <==> !self.is_parallel(*ray) && !self.leads_away(*ray) && self.covers(
                self.distance_from_center(*ray),
            ),
            self.size.raw < 0 ==> (r is Some <==> !self.is_parallel(*ray) && !self.leads_away(
                *ray,
            )),
            r matches Some(hit) ==> hit.point == ray.at_spec(hit.t) && hit.normal
                == self.facing_normal(*ray),
    {
        let d_dot_n = ray.direction.dot(&self.normal);
        let c_minus_o_dot_n = self.center.sub(ray.origin).dot(&self.normal);
        if d_dot_n.abs().raw < PARALLEL_RAW
            || d_dot_n.signum().raw != c_minus_o_dot_n.signum().raw
        {
            return None;
        }
        let t = c_minus_o_dot_n.div(d_dot_n);
        let hit_point = ray.at(t);
        proof {
            if self.normal.is_unit() {
                lemma_negated_is_unit(self.normal);
            }
        }

        if self.size.raw < 0 || hit_point.sub(self.center).norm().raw <= self.size.raw {
            Some(
                HitRecord {
                    t,
                    point: hit_point,
                    normal: if d_dot_n.raw < 0 {
                        self.normal
                    } else {
                        self.normal.neg()
                    },
                    material: self.material,
                },
            )
        } else {
            None
        }
    }

    fn material(&self) -> (r: usize) {
        self.material
    }
}

/// Any of the surfaces that a scene can hold.
#[derive(Clone, Copy, Debug, PartialEq, Eq, Structural)]
pub enum Surface {
    Sphere(Sphere),
    Plane(Plane),
}

impl Object for Surface {
    open spec fn hit_spec(&self, ray: Ray) -> Option<HitRecord> {
        match *self {
            Surface::Sphere(s) => s.hit_spec(ray),
            Surface::Plane(p) => p.hit_spec(ray),
        }
    }

    open spec fn material_spec(&self) -> usize {
        match *self {
            Surface::Sphere(s) => s.material,
            Surface::Plane(p) => p.material,
        }
    }

    open spec fn valid(&self) -> bool {
        match *self {
            Surface::Sphere(s) => s.valid(),
            Surface::Plane(p) => p.valid(),
        }
    }

    fn is_valid(&self) -> (r: bool) {
        match self {
            Surface::Sphere(s) => s.is_valid(),
            Surface::Plane(p) => p.is_valid(),
        }
    }

    fn ray_intersection(&self, ray: &Ray) -> (r: Option<HitRecord>) {
        match self {
            Surface::Sphere(s) => s.ray_intersection(ray),
            Surface::Plane(p) => p.ray_intersection(ray),
        }
    }

    fn material(&self) -> (r: usize) {
        match self {
            Surface::Sphere(s) => s.material,
            Surface::Plane(p) => p.material,
        }
    }
}

} // verus!
