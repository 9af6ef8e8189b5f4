//! The scene and the path tracer that follows rays through it.

use vstd::prelude::*;
use crate::math::ray::Ray;
use crate::math::vec3::{is_offset, lemma_norm_of_zero, Vec3};
use crate::scalar::{Scalar, HALF_RAW, SCALE};
use crate::scene::geometry::{HitRecord, Object, Surface};
use crate::scene::material::{Emissive, Material, MaterialKind};

verus! {

/// The light that comes from where a ray leaves the scene.
#[derive(Clone, Copy, Debug, PartialEq, Eq, Structural)]
pub enum Background {
    /// The same light from everywhere.
    Flat(Vec3),
    /// A sky: `nadir` from straight below, `zenith` from straight above,
    /// and between the two by the height `y` of the ray's unit direction,
    /// at `(y + 1) / 2` of the way from the one to the other. A ray
    /// without a direction has the height zero.
    Gradient { nadir: Vec3, zenith: Vec3 },
}

impl Background {
    /// The light that reaches the origin of `ray` from outside the scene.
    pub open spec fn color_spec(self, ray: Ray) -> Vec3 {
        match self {
            Background::Flat(color) => color,
            Background::Gradient { nadir, zenith } => {
                let unit = ray.direction.normalize_spec();
                let t = Scalar { raw: HALF_RAW }.times(unit.y.plus(Scalar::one()));
                Vec3::lerp_spec(nadir, zenith, t)
            },
        }
    }

    /// The light that reaches the origin of `ray` from outside the scene.
    pub fn color(&self, ray: &Ray) -> (r: Vec3)
        ensures
            r == self.color_spec(*ray),
    {
        match self {
            Background::Flat(color) => *color,
            Background::Gradient { nadir, zenith } => {
                let d = ray.direction;
                // A ray without a direction has no height.
                let unit_dir = if d.x.raw == 0 && d.y.raw == 0 && d.z.raw == 0 {
                    d
                } else {
                    proof {
                        lemma_norm_of_zero(d);
                    }
                    d.normalize()
                };
                let t = Scalar { raw: HALF_RAW }.mul(unit_dir.y.add(Scalar { raw: SCALE }));
                Vec3::lerp(*nadir, *zenith, t)
            },
        }
    }
}

/// What `ray` hits on each of `surfaces`, in their order.
pub open spec fn hits_on(surfaces: Seq<Surface>, ray: Ray) -> Seq<Option<HitRecord>> {
    Seq::new(surfaces.len(), |i: int| surfaces[i].hit_spec(ray))
}

/// The nearest of `hits`: the one with the least parameter. Of two hits at
/// the same parameter the earlier one stays.
pub open spec fn nearest_hit(hits: Seq<Option<HitRecord>>) -> Option<HitRecord>
    decreases hits.len(),
{
    if hits.len() == 0 {
        None
    } else {
        let before = nearest_hit(hits.drop_last());
        match (before, hits.last()) {
            (Some(b), Some(h)) => if h.t.raw < b.t.raw {
                Some(h)
            } else {
                Some(b)
            },
            (Some(b), None) => Some(b),
            (None, h) => h,
        }
    }
}

/// The hit of `ray` that is nearest to its origin among `surfaces`.
pub open spec fn closest_hit_among(surfaces: Seq<Surface>, ray: Ray) -> Option<HitRecord> {
    nearest_hit(hits_on(surfaces, ray))
}

/// Whether every surface names a material that `materials` holds.
pub open spec fn materials_cover(surfaces: Seq<Surface>, materials: Seq<MaterialKind>) -> bool {
    forall|i: int|
        0 <= i < surfaces.len() ==> (#[trigger] surfaces[i]).material_spec() < materials.len()
}

/// Whether every surface is well formed.
pub open spec fn surfaces_valid(surfaces: Seq<Surface>) -> bool {
    forall|i: int| 0 <= i < surfaces.len() ==> (#[trigger] surfaces[i]).valid()
}

/// The offsets drawn for the next bounce of a path: the first pair of
/// `offsets`, or two zeros where none is left.
pub open spec fn next_offsets(offsets: Seq<(Scalar, Scalar)>) -> (Scalar, Scalar) {
    if offsets.len() > 0 {
        offsets[0]
    } else {
        (Scalar::zero(), Scalar::zero())
    }
}

/// The offsets that are left for the bounces after the next one.
pub open spec fn later_offsets(offsets: Seq<(Scalar, Scalar)>) -> Seq<(Scalar, Scalar)> {
    if offsets.len() > 0 {
        offsets.skip(1)
    } else {
        offsets
    }
}

/// Whether every pair of `offsets` can have been drawn for a bounce.
pub open spec fn are_offsets(offsets: Seq<(Scalar, Scalar)>) -> bool {
    forall|i: int|
        0 <= i < offsets.len() ==> is_offset((#[trigger] offsets[i]).0) && is_offset(
            offsets[i].1,
        )
}

/// Surfaces, the materials they are made of, and a background.
pub struct Scene {
    surfaces: Vec<Surface>,
    materials: Vec<MaterialKind>,
    background: Background,
}

impl Scene {
    #[verifier::type_invariant]
    spec fn inv(self) -> bool {
        materials_cover(self.surfaces@, self.materials@) && surfaces_valid(self.surfaces@)
    }

    /// The scene's surfaces, in the order in which rays are tested on them.
    pub closed spec fn surfaces(&self) -> Seq<Surface> {
        self.surfaces@
    }

    /// The scene's materials; a surface names its own by its place here.
    pub closed spec fn materials(&self) -> Seq<MaterialKind> {
        self.materials@
    }

    /// The scene's background.
    pub closed spec fn background(&self) -> Background {
        self.background
    }

    /// The nearest hit of `ray` in the scene.
    pub open spec fn closest_hit_spec(&self, ray: Ray) -> Option<HitRecord> {
        closest_hit_among(self.surfaces(), ray)
    }

    /// The light that comes back along `ray` on a path of at most `depth`
    /// bounces, when `offsets` holds the offsets drawn bounce by bounce.
    ///
    /// With no bounce left it is nothing. A ray that leaves the scene
    /// brings the background. At a hit it is what the surface gives off,
    /// and, where the surface scatters the ray, what comes back along the
    /// scattered ray, multiplied colour by colour by the surface's
    /// attenuation.
    pub open spec fn radiance(&self, ray: Ray, depth: nat, offsets: Seq<(Scalar, Scalar)>) -> Vec3
        decreases depth,
    {
        if depth == 0 {
            Vec3::zero()
        } else {
            match self.closest_hit_spec(ray) {
                None => self.background().color_spec(ray),
                Some(hit) => {
                    let material = self.materials()[hit.material as int];
                    let emitted = material.emitted_spec(ray, hit);
                    let (u, v) = next_offsets(offsets);
                    match material.scatter_spec(ray, hit, u, v) {
                        Some(out) => emitted.plus(
                            out.1.times(
                                self.radiance(out.0, (depth - 1) as nat, later_offsets(offsets)),
                            ),
                        ),
                        None => emitted,
                    }
                },
            }
        }
    }

    /// Makes a scene, unless a surface names a material that `materials`
    /// does not hold, or a surface is not well formed: a plane whose normal
    /// has not unit length.
    pub fn new(surfaces: Vec<Surface>, materials: Vec<MaterialKind>, background: Background) -> (r:
        Option<Scene>)
        ensures
            r is Some <==> materials_cover(surfaces@, materials@) && surfaces_valid(surfaces@),
            r matches Some(scene) ==> scene.surfaces() == surfaces@ && scene.materials()
                == materials@ && scene.background() == background,
    {
        let mut i: usize = 0;
        while i < surfaces.len()
            invariant
                i <= surfaces.len(),
                forall|j: int|
                    0 <= j < i ==> (#[trigger] surfaces@[j]).material_spec() < materials.len(),
                forall|j: int| 0 <= j < i ==> (#[trigger] surfaces@[j]).valid(),
            decreases surfaces.len() - i,
        {
            if surfaces[i].material() >= materials.len() || !surfaces[i].is_valid() {
                return None;
            }
            i += 1;
        }
        Some(Scene { surfaces, materials, background })
    }

    /// States what holds of every scene: each surface names a material that
    /// the scene holds, and each surface is well formed.
    pub fn well_formed(&self)
        ensures
            materials_cover(self.surfaces(), self.materials()),
            surfaces_valid(self.surfaces()),
    {
        proof {
            use_type_invariant(self);
        }
    }

    /// The nearest hit of `ray` in the scene: every surface is tested, and
    /// a later hit replaces an earlier one only where it is strictly nearer.
    pub fn closest_hit(&self, ray: &Ray) -> (r: Option<HitRecord>)
        ensures
            r == self.closest_hit_spec(*ray),
            r matches Some(hit) ==> hit.material < self.materials().len()
                && hit.normal.is_unit(),
    {
        proof {
            use_type_invariant(self);
        }
        let mut closest: Option<HitRecord> = None;
        let mut i: usize = 0;
        while i < self.surfaces.len()
            invariant
                i <= self.surfaces.len(),
                materials_cover(self.surfaces@, self.materials@),
                surfaces_valid(self.surfaces@),
                closest == nearest_hit(hits_on(self.surfaces@, *ray).take(i as int)),
                closest matches Some(hit) ==> hit.material < self.materials@.len()
                    && hit.normal.is_unit(),
            decreases self.surfaces.len() - i,
        {
            proof {
                let hits = hits_on(self.surfaces@, *ray);
                let upto = hits.take(i + 1);
                assert(upto.drop_last() =~= hits.take(i as int));
                assert(upto.last() == self.surfaces@[i as int].hit_spec(*ray));
                lemma_hit_keeps_material(self.surfaces@[i as int], *ray);
            }
            match self.surfaces[i].ray_intersection(ray) {
                Some(hit) => {
                    match closest {
                        Some(best) => {
                            if hit.t.raw < best.t.raw {
                                closest = Some(hit);
                            }
                        },
                        None => {
                            closest = Some(hit);
                        },
                    }
                },
                None => {},
            }
            i += 1;
        }
        assert(hits_on(self.surfaces@, *ray).take(i as int) =~= hits_on(self.surfaces@, *ray));
        closest
    }
}

/// What comes back along the first ray of a path when `tail` comes back
/// along its last: each bounce, from the last to the first, adds what its
/// surface gives off to what comes back so far, multiplied by the
/// surface's attenuation. A bounce is written as the pair of what is given
/// off and the attenuation.
pub open spec fn fold_back(bounces: Seq<(Vec3, Vec3)>, tail: Vec3) -> Vec3
    decreases bounces.len(),
{
    if bounces.len() == 0 {
        tail
    } else {
        let last = bounces.last();
        fold_back(bounces.drop_last(), last.0.plus(last.1.times(tail)))
    }
}

/// Folds the light `tail` back over `bounces`, from the last to the first.
fn fold(bounces: &Vec<(Vec3, Vec3)>, tail: Vec3) -> (r: Vec3)
    ensures
        r == fold_back(bounces@, tail),
{
    let mut r = tail;
    let mut i: usize = bounces.len();
    assert(bounces@.take(i as int) =~= bounces@);
    while i > 0
        invariant
            i <= bounces.len(),
            fold_back(bounces@, tail) == fold_back(bounces@.take(i as int), r),
        decreases i,
    {
        proof {
            let upto = bounces@.take(i as int);
            assert(upto.drop_last() =~= bounces@.take(i - 1));
            assert(upto.last() == bounces@[i - 1]);
        }
        i -= 1;
        let (emitted, attenuation) = bounces[i];
        r = emitted.add(attenuation.mul(r));
    }
    r
}

/// Whether `r` can be the light that comes back along `ray`: for offsets
/// that were given it is their radiance; with none given it is the
/// radiance for some offsets that can be drawn.
pub open spec fn is_radiance(
    scene: &Scene,
    ray: Ray,
    depth: nat,
    given: Option<Seq<(Scalar, Scalar)>>,
    r: Vec3,
) -> bool {
    match given {
        Some(offsets) => r == scene.radiance(ray, depth, offsets),
        None => exists|offsets: Seq<(Scalar, Scalar)>|
            are_offsets(offsets) && r == #[trigger] scene.radiance(ray, depth, offsets),
    }
}

/// Follows `ray` through `scene` for at most `depth` bounces. The offsets
/// for the scattered directions are taken from `given`, in order and then
/// zeros, or are drawn bounce by bounce where none are given.
fn follow(ray: &Ray, scene: &Scene, depth: u32, given: Option<&Vec<(Scalar, Scalar)>>) -> (r: Vec3)
    ensures
        given matches Some(offsets) ==> is_radiance(scene, *ray, depth as nat, Some(offsets@), r),
        given is None ==> is_radiance(scene, *ray, depth as nat, None, r),
{
    let mut bounces: Vec<(Vec3, Vec3)> = Vec::new();
    let mut current = *ray;
    let mut left = depth;
    let mut next: usize = 0;
    let mut tail = Vec3::zeros();
    let mut done = false;
    // What was drawn so far, bounce by bounce, where nothing is given.
    let ghost mut drawn = Seq::<(Scalar, Scalar)>::empty();
    proof {
        assert(forall|rest: Seq<(Scalar, Scalar)>| #[trigger] drawn.add(rest) =~= rest);
        if let Some(offsets) = given {
            assert(offsets@.skip(0) =~= offsets@);
        }
    }
    while !done
        invariant
            given matches Some(offsets) ==> next <= offsets.len() && scene.radiance(
                *ray,
                depth as nat,
                offsets@,
            ) == fold_back(
                bounces@,
                if done {
                    tail
                } else {
                    scene.radiance(current, left as nat, offsets@.skip(next as int))
                },
            ),
            given is None ==> are_offsets(drawn) && forall|rest: Seq<(Scalar, Scalar)>|
                scene.radiance(*ray, depth as nat, #[trigger] drawn.add(rest)) == fold_back(
                    bounces@,
                    if done {
                        tail
                    } else {
                        scene.radiance(current, left as nat, rest)
                    },
                ),
        decreases
                (if done {
                    0int
                } else {
                    left + 1
                }),
    {
        if left == 0 {
            tail = Vec3::zeros();
            done = true;
        } else {
            match scene.closest_hit(&current) {
                Some(hit) => {
                    let material = &scene.materials[hit.material];
                    let emitted = material.emitted(&current, &hit);
                    let ghost u: Scalar;
                    let ghost v: Scalar;
                    let following: usize;
                    let scattered = match given {
                        Some(offsets) => {
                            let ghost rest = offsets@.skip(next as int);
                            let pair = if next < offsets.len() {
                                following = next + 1;
                                offsets[next]
                            } else {
                                following = next;
                                (Scalar { raw: 0 }, Scalar { raw: 0 })
                            };
                            proof {
                                u = pair.0;
                                v = pair.1;
                                assert(next_offsets(rest) == pair);
                                assert(later_offsets(rest) =~= offsets@.skip(following as int));
                            }
                            material.scatter_with(&current, &hit, pair.0, pair.1)
                        },
                        None => {
                            following = next;
                            let scattered = material.scatter(&current, &hit);
                            proof {
                                let pair = choose|u: Scalar, v: Scalar|
                                    is_offset(u) && is_offset(v) && scattered
                                        == #[trigger] material.scatter_spec(current, hit, u, v);
                                u = pair.0;
                                v = pair.1;
                            }
                            scattered
                        },
                    };
                    proof {
                        if given is None {
                            let more = drawn.push((u, v));
                            assert forall|rest: Seq<(Scalar, Scalar)>|
                                scene.radiance(
                                    current,
                                    left as nat,
                                    #[trigger] seq![(u, v)].add(rest),
                                ) == (match scattered {
                                    Some(out) => emitted.plus(
                                        out.1.times(
                                            scene.radiance(out.0, (left - 1) as nat, rest),
                                        ),
                                    ),
                                    None => emitted,
                                }) && more.add(rest) =~= drawn.add(seq![(u, v)].add(rest)) by {
                                let here = seq![(u, v)].add(rest);
                                assert(next_offsets(here) == (u, v));
                                assert(later_offsets(here) =~= rest);
                            }
                            assert forall|rest: Seq<(Scalar, Scalar)>|
                                scene.radiance(
                                    *ray,
                                    depth as nat,
                                    #[trigger] more.add(rest),
                                ) == fold_back(
                                    bounces@,
                                    match scattered {
                                        Some(out) => emitted.plus(
                                            out.1.times(
                                                scene.radiance(out.0, (left - 1) as nat, rest),
                                            ),
                                        ),
                                        None => emitted,
                                    },
                                ) by {
                                let here = seq![(u, v)].add(rest);
                                assert(more.add(rest) =~= drawn.add(here));
                            }
                            drawn = more;
                        }
                    }
                    match scattered {
                        Some((out_ray, attenuation)) => {
                            proof {
                                let longer = bounces@.push((emitted, attenuation));
                                assert(longer.drop_last() =~= bounces@);
                                assert(longer.last() == (emitted, attenuation));
                            }
                            bounces.push((emitted, attenuation));
                            current = out_ray;
                            left = left - 1;
                            next = following;
                        },
                        None => {
                            tail = emitted;
                            done = true;
                        },
                    }
                },
                None => {
                    tail = scene.background.color(&current);
                    done = true;
                },
            }
        }
    }
    let r = fold(&bounces, tail);
    proof {
        if given is None {
            let none = Seq::<(Scalar, Scalar)>::empty();
            assert(drawn.add(none) =~= drawn);
            assert(r == scene.radiance(*ray, depth as nat, drawn.add(none)));
        }
    }
    r
}

/// The light that comes back along `ray` on a path of at most `depth`
/// bounces through `scene`, for scattered directions that were drawn
/// beforehand: `offsets` holds a pair for each bounce, in order. A path that
/// bounces more often than there are pairs goes on with zeros.
///
/// With no bounce allowed it is nothing, and in a scene without surfaces it
/// is the background.
pub fn trace_path(ray: &Ray, scene: &Scene, depth: u32, offsets: &Vec<(Scalar, Scalar)>) -> (r:
    Vec3)
    ensures
        r == scene.radiance(*ray, depth as nat, offsets@),
        depth == 0 ==> r == Vec3::zero(),
        depth > 0 && scene.surfaces().len() == 0 ==> r == scene.background().color_spec(*ray),
{
    follow(ray, scene, depth, Some(offsets))
}

/// The light that comes back along `ray` on a random path of at most
/// `depth` bounces through `scene`.
///
/// Whatever directions are drawn, the result is that of [`trace_path`] for
/// some offsets that can be drawn. With no bounce allowed it is nothing,
/// and in a scene without surfaces it is the background.
pub fn trace_ray(ray: &Ray, scene: &Scene, depth: u32) -> (r: Vec3)
    ensures
        exists|offsets: Seq<(Scalar, Scalar)>|
            are_offsets(offsets) && r == #[trigger] scene.radiance(*ray, depth as nat, offsets),
        depth == 0 ==> r == Vec3::zero(),
        depth > 0 && scene.surfaces().len() == 0 ==> r == scene.background().color_spec(*ray),
{
    follow(ray, scene, depth, None)
}

/// A hit on a surface names that surface's material.
pub proof fn lemma_hit_keeps_material(surface: Surface, ray: Ray)
    ensures
        surface.hit_spec(ray) matches Some(hit) ==> hit.material == surface.material_spec(),
{
}

/// Whether `hit` is the hit at place `i` of `hits` and the nearest of them
/// all: none is nearer, and no earlier one is as near.
pub open spec fn is_nearest_hit(hits: Seq<Option<HitRecord>>, i: int, hit: HitRecord) -> bool {
    &&& 0 <= i < hits.len()
    &&& hits[i] == Some(hit)
    &&& forall|j: int|
        0 <= j < hits.len() ==> (#[trigger] hits[j] matches Some(other) ==> hit.t.raw
            <= other.t.raw)
    &&& forall|j: int|
        0 <= j < i ==> (#[trigger] hits[j] matches Some(other) ==> hit.t.raw < other.t.raw)
}

/// The nearest hit is what its name says: where nothing is hit there is
/// none, and else it is the hit with the least parameter, the first of
/// those that share it.
pub proof fn lemma_nearest_hit(hits: Seq<Option<HitRecord>>)
    ensures
        nearest_hit(hits) is None <==> forall|i: int|
            0 <= i < hits.len() ==> #[trigger] hits[i] is None,
        nearest_hit(hits) matches Some(hit) ==> exists|i: int| is_nearest_hit(hits, i, hit),
    decreases hits.len(),
{
    if hits.len() > 0 {
        let before = hits.drop_last();
        let last = hits.len() - 1;
        lemma_nearest_hit(before);
        assert(forall|j: int| 0 <= j < before.len() ==> before[j] == hits[j]);
        match (nearest_hit(before), hits.last()) {
            (Some(b), Some(h)) => {
                let i = choose|i: int| is_nearest_hit(before, i, b);
                assert(before[i] == hits[i]);
                if h.t.raw < b.t.raw {
                    assert(is_nearest_hit(hits, last, h));
                } else {
                    assert(is_nearest_hit(hits, i, b));
                }
            },
            (Some(b), None) => {
                let i = choose|i: int| is_nearest_hit(before, i, b);
                assert(before[i] == hits[i]);
                assert(is_nearest_hit(hits, i, b));
            },
            (None, Some(h)) => {
                assert(is_nearest_hit(hits, last, h));
            },
            (None, None) => {},
        }
    }
}

/// The closest hit in a scene is the nearest: where a ray hits no surface
/// there is none, and else it is the hit with the least parameter, on the
/// first of the surfaces that are hit there.
pub proof fn lemma_closest_hit_is_nearest(surfaces: Seq<Surface>, ray: Ray)
    ensures
        closest_hit_among(surfaces, ray) is None <==> forall|i: int|
            0 <= i < surfaces.len() ==> (#[trigger] surfaces[i]).hit_spec(ray) is None,
        closest_hit_among(surfaces, ray) matches Some(hit) ==> exists|i: int|
            is_nearest_hit(hits_on(surfaces, ray), i, hit),
{
    let hits = hits_on(surfaces, ray);
    lemma_nearest_hit(hits);
    if closest_hit_among(surfaces, ray) is None {
        assert forall|i: int| 0 <= i < surfaces.len() implies (#[trigger] surfaces[i]).hit_spec(
            ray,
        ) is None by {
            assert(hits[i] is None);
        }
    }
}

/// With no bounce allowed, nothing comes back along a ray, whatever the
/// scene holds.
pub proof fn lemma_radiance_without_depth(scene: &Scene, ray: Ray, offsets: Seq<(Scalar, Scalar)>)
    ensures
        scene.radiance(ray, 0, offsets) == Vec3::zero(),
{
}

/// In a scene without surfaces, what comes back along a ray is the
/// background, whatever the depth above zero.
pub proof fn lemma_radiance_in_empty_scene(
    scene: &Scene,
    ray: Ray,
    depth: nat,
    offsets: Seq<(Scalar, Scalar)>,
)
    requires
        depth > 0,
        scene.surfaces().len() == 0,
    ensures
        scene.radiance(ray, depth, offsets) == scene.background().color_spec(ray),
{
}

/// What comes back along a ray that hits a light is the light's radiance,
/// whatever else the scene holds behind it.
pub proof fn lemma_radiance_of_a_light(
    scene: &Scene,
    ray: Ray,
    depth: nat,
    offsets: Seq<(Scalar, Scalar)>,
    hit: HitRecord,
    emitted_color: Vec3,
)
    requires
        depth > 0,
        scene.closest_hit_spec(ray) == Some(hit),
        scene.materials()[hit.material as int] == MaterialKind::Emissive(
            Emissive { emitted_color },
        ),
    ensures
        scene.radiance(ray, depth, offsets) == emitted_color,
{
}

} // verus!
