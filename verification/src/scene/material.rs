//! Materials: what a surface does with the light that reaches it.

use vstd::prelude::*;
use crate::math::ray::Ray;
use crate::math::vec3::{is_offset, Vec3};
use crate::random::random_scalar;
use crate::scalar::{Scalar, SCALE};
use crate::scene::geometry::HitRecord;

verus! {

/// How a surface scatters a ray and what light it gives off itself.
pub trait Material {
    /// What becomes of `ray` at `hit` when the offsets `u` and `v` were
    /// drawn for the scattered direction: the ray that goes on, with the
    /// factor by which the light it brings back is multiplied, or nothing
    /// where the path ends.
    spec fn scatter_spec(&self, ray: Ray, hit: HitRecord, u: Scalar, v: Scalar) -> Option<
        (Ray, Vec3),
    >;

    /// The light that the surface gives off at `hit` toward where `ray`
    /// came from.
    spec fn emitted_spec(&self, ray: Ray, hit: HitRecord) -> Vec3;

    /// Scatters `ray` at `hit`, whose normal has unit length, for the drawn
    /// offsets `u` and `v`. A ray that goes on starts at the hit point.
    fn scatter_with(&self, ray: &Ray, hit: &HitRecord, u: Scalar, v: Scalar) -> (r: Option<
        (Ray, Vec3),
    >)
        requires
            hit.normal.is_unit(),
        ensures
            r == self.scatter_spec(*ray, *hit, u, v),
            r matches Some(out) ==> out.0.origin == hit.point,
    ;

    /// Scatters `ray` at `hit`, whose normal has unit length, in a random
    /// direction. A ray that goes on starts at the hit point.
    fn scatter(&self, ray: &Ray, hit: &HitRecord) -> (r: Option<(Ray, Vec3)>)
        requires
            hit.normal.is_unit(),
        ensures
            exists|u: Scalar, v: Scalar|
                is_offset(u) && is_offset(v) && r == #[trigger] self.scatter_spec(
                    *ray,
                    *hit,
                    u,
                    v,
                ),
            r matches Some(out) ==> out.0.origin == hit.point,
    {
        let u = random_scalar(Scalar { raw: -SCALE }, Scalar { raw: SCALE });
        let v = random_scalar(Scalar { raw: -SCALE }, Scalar { raw: SCALE });
        self.scatter_with(ray, hit, u, v)
    }

    /// The light that the surface gives off at `hit`.
    fn emitted(&self, ray: &Ray, hit: &HitRecord) -> (r: Vec3)
        ensures
            r == self.emitted_spec(*ray, *hit),
    ;
}

/// An ideal diffuse reflector.
#[derive(Clone, Copy, Debug, PartialEq, Eq, Structural)]
pub struct Lambertian {
    /// The share of the light that is reflected, colour by colour.
    pub albedo: Vec3,
}

impl Lambertian {
    /// The direction in the world that stands for the direction `local`
    /// given in the frame around `normal`:
    /// `tangent * x + bitangent * y + normal * z`.
    pub open spec fn to_world(normal: Vec3, local: Vec3) -> Vec3 {
        let (tangent, bitangent) = normal.onb_spec();
        tangent.scaled(local.x).plus(bitangent.scaled(local.y)).plus(normal.scaled(local.z))
    }
}

impl Material for Lambertian {
    open spec fn scatter_spec(&self, ray: Ray, hit: HitRecord, u: Scalar, v: Scalar) -> Option<
        (Ray, Vec3),
    > {
        Some(
            (
                Ray::new_spec(hit.point, Lambertian::to_world(hit.normal, Vec3::cosine_spec(u, v))),
                self.albedo,
            ),
        )
    }

    open spec fn emitted_spec(&self, ray: Ray, hit: HitRecord) -> Vec3 {
        Vec3::zero()
    }

    fn scatter_with(&self, ray: &Ray, hit: &HitRecord, u: Scalar, v: Scalar) -> (r: Option<
        (Ray, Vec3),
    >) {
        let local_dir = Vec3::cosine_point(u, v);
        let (tangent, bitangent) = hit.normal.extend_to_onb();
        let world_dir = tangent.scale(local_dir.x).add(bitangent.scale(local_dir.y)).add(
            hit.normal.scale(local_dir.z),
        );

        let out_ray = Ray::new(hit.point, world_dir);
        Some((out_ray, self.albedo))
    }

    fn emitted(&self, ray: &Ray, hit: &HitRecord) -> (r: Vec3) {
        Vec3::zeros()
    }
}

/// A light: it gives off light of its own and reflects none.
#[derive(Clone, Copy, Debug, PartialEq, Eq, Structural)]
pub struct Emissive {
    /// The radiance given off, colour by colour.
    pub emitted_color: Vec3,
}

impl Material for Emissive {
    open spec fn scatter_spec(&self, ray: Ray, hit: HitRecord, u: Scalar, v: Scalar) -> Option<
        (Ray, Vec3),
    > {
        None
    }

    open spec fn emitted_spec(&self, ray: Ray, hit: HitRecord) -> Vec3 {
        self.emitted_color
    }

    fn scatter_with(&self, ray: &Ray, hit: &HitRecord, u: Scalar, v: Scalar) -> (r: Option<
        (Ray, Vec3),
    >) {
        None
    }

    fn scatter(&self, ray: &Ray, hit: &HitRecord) -> (r: Option<(Ray, Vec3)>) {
        assert(is_offset(Scalar::zero()) && self.scatter_spec(
            *ray,
            *hit,
            Scalar::zero(),
            Scalar::zero(),
        ) is None);
        None
    }

    fn emitted(&self, ray: &Ray, hit: &HitRecord) -> (r: Vec3) {
        self.emitted_color
    }
}

/// Any of the materials that a scene can hold.
#[derive(Clone, Copy, Debug, PartialEq, Eq, Structural)]
pub enum MaterialKind {
    Lambertian(Lambertian),
    Emissive(Emissive),
}

impl Material for MaterialKind {
    open spec fn scatter_spec(&self, ray: Ray, hit: HitRecord, u: Scalar, v: Scalar) -> Option<
        (Ray, Vec3),
    > {
        match *self {
            MaterialKind::Lambertian(m) => m.scatter_spec(ray, hit, u, v),
            MaterialKind::Emissive(m) => m.scatter_spec(ray, hit, u, v),
        }
    }

    open spec fn emitted_spec(&self, ray: Ray, hit: HitRecord) -> Vec3 {
        match *self {
            MaterialKind::Lambertian(m) => m.emitted_spec(ray, hit),
            MaterialKind::Emissive(m) => m.emitted_spec(ray, hit),
        }
    }

    fn scatter_with(&self, ray: &Ray, hit: &HitRecord, u: Scalar, v: Scalar) -> (r: Option<
        (Ray, Vec3),
    >) {
        match self {
            MaterialKind::Lambertian(m) => m.scatter_with(ray, hit, u, v),
            MaterialKind::Emissive(m) => m.scatter_with(ray, hit, u, v),
        }
    }

    fn scatter(&self, ray: &Ray, hit: &HitRecord) -> (r: Option<(Ray, Vec3)>) {
        match self {
            MaterialKind::Lambertian(m) => {
                let r = m.scatter(ray, hit);
                proof {
                    let (u, v) = choose|u: Scalar, v: Scalar|
                        is_offset(u) && is_offset(v) && r == #[trigger] m.scatter_spec(
                            *ray,
                            *hit,
                            u,
                            v,
                        );
                    assert(r == self.scatter_spec(*ray, *hit, u, v));
                }
                r
            },
            MaterialKind::Emissive(m) => {
                let r = m.scatter(ray, hit);
                proof {
                    let (u, v) = choose|u: Scalar, v: Scalar|
                        is_offset(u) && is_offset(v) && r == #[trigger] m.scatter_spec(
                            *ray,
                            *hit,
                            u,
                            v,
                        );
                    assert(r == self.scatter_spec(*ray, *hit, u, v));
                }
                r
            },
        }
    }

    fn emitted(&self, ray: &Ray, hit: &HitRecord) -> (r: Vec3) {
        match self {
            MaterialKind::Lambertian(m) => m.emitted(ray, hit),
            MaterialKind::Emissive(m) => m.emitted(ray, hit),
        }
    }
}

} // verus!
