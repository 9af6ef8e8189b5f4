//! From a scene and a camera to an image: the estimate of the light that
//! reaches each pixel, as the mean over the paths sampled for it.
//!
//! What is drawn at random for one path is written as a sequence of pairs
//! of scalars: first the pair that moves the path's place within its pixel,
//! then one pair of offsets for each bounce.

use vstd::prelude::*;
use crate::math::ray::Ray;
use crate::math::vec3::Vec3;
use crate::random::random_scalar;
use crate::scalar::{Scalar, SCALE};
use crate::scene::camera::Camera;
use crate::scene::geometry::Object;
use crate::scene::material::{Emissive, MaterialKind};
use crate::tracer::{
    are_offsets, hits_on, is_nearest_hit, later_offsets, lemma_closest_hit_is_nearest,
    lemma_hit_keeps_material, lemma_radiance_of_a_light, next_offsets,
    trace_path, trace_ray, Scene,
};

verus! {

/// The raw value of the bound on how far a path is moved within its pixel,
/// as a share of the pixel's size: `0.2`.
pub const JITTER_RAW: i64 = 200_000_000;

/// Whether `s` can be drawn to move a path within its pixel:
/// `-0.2 <= s < 0.2`.
pub open spec fn is_jitter(s: Scalar) -> bool {
    -JITTER_RAW <= s.raw < JITTER_RAW
}

/// Whether `path` can be what is drawn for one path: a pair that moves it
/// within its pixel, then pairs of offsets for its bounces.
pub open spec fn is_path(path: Seq<(Scalar, Scalar)>) -> bool {
    path.len() > 0 && is_jitter(path[0].0) && is_jitter(path[0].1) && are_offsets(path.skip(1))
}

/// The ray through pixel `(x, y)` of an image of `width` by `height`
/// pixels, moved within the pixel by `jitter`: it passes the image at
/// `s = (x + jitter.0) / width` and `t = (y + jitter.1) / height`.
pub open spec fn primary_ray(
    camera: Camera,
    width: int,
    height: int,
    x: int,
    y: int,
    jitter: (Scalar, Scalar),
) -> Ray {
    camera.get_ray_spec(
        Scalar::whole(x).plus(jitter.0).over(Scalar::whole(width)),
        Scalar::whole(y).plus(jitter.1).over(Scalar::whole(height)),
    )
}

/// The light that one path brings to pixel `(x, y)`.
pub open spec fn sample_spec(
    scene: &Scene,
    camera: Camera,
    width: int,
    height: int,
    x: int,
    y: int,
    depth: nat,
    path: Seq<(Scalar, Scalar)>,
) -> Vec3 {
    scene.radiance(
        primary_ray(camera, width, height, x, y, next_offsets(path)),
        depth,
        later_offsets(path),
    )
}

/// The light that `paths` bring to pixel `(x, y)`, summed in their order.
pub open spec fn sum_spec(
    scene: &Scene,
    camera: Camera,
    width: int,
    height: int,
    x: int,
    y: int,
    depth: nat,
    paths: Seq<Seq<(Scalar, Scalar)>>,
) -> Vec3
    decreases paths.len(),
{
    if paths.len() == 0 {
        Vec3::zero()
    } else {
        sum_spec(scene, camera, width, height, x, y, depth, paths.drop_last()).plus(
            sample_spec(scene, camera, width, height, x, y, depth, paths.last()),
        )
    }
}

/// The estimate for pixel `(x, y)`: the mean of what `paths` bring.
pub open spec fn pixel_spec(
    scene: &Scene,
    camera: Camera,
    width: int,
    height: int,
    x: int,
    y: int,
    depth: nat,
    paths: Seq<Seq<(Scalar, Scalar)>>,
) -> Vec3 {
    sum_spec(scene, camera, width, height, x, y, depth, paths).over(
        Scalar::whole(paths.len() as int),
    )
}

/// Whether `color` can be the estimate for pixel `(x, y)` from `samples`
/// random paths: whether it is the mean of what that many paths bring, for
/// something that can be drawn for each of them.
pub open spec fn is_estimate(
    scene: &Scene,
    camera: Camera,
    width: int,
    height: int,
    x: int,
    y: int,
    samples: nat,
    depth: nat,
    color: Vec3,
) -> bool {
    exists|paths: Seq<Seq<(Scalar, Scalar)>>|
        paths.len() == samples && (forall|k: int|
            0 <= k < paths.len() ==> is_path(#[trigger] paths[k])) && color
            == #[trigger] pixel_spec(scene, camera, width, height, x, y, depth, paths)
}

/// The paths that `paths` holds, as sequences.
pub open spec fn paths_view(paths: Seq<Vec<(Scalar, Scalar)>>) -> Seq<Seq<(Scalar, Scalar)>> {
    Seq::new(paths.len(), |k: int| paths[k]@)
}

/// The scalar that stands for the count `n`.
fn count_of(n: usize) -> (r: Scalar)
    ensures
        r == Scalar::whole(n as int),
{
    if n as u64 > 0x7fff_ffff_ffff_ffff_u64 {
        assert(n * SCALE > i64::MAX) by (nonlinear_arith)
            requires
                n > 0x7fff_ffff_ffff_ffff,
                SCALE == 1_000_000_000,
        ;
        Scalar { raw: i64::MAX }
    } else {
        Scalar::from_int(n as i64)
    }
}

/// The ray through pixel `(x, y)`, moved within the pixel by `jitter`.
fn primary(
    camera: &Camera,
    width: u32,
    height: u32,
    x: u32,
    y: u32,
    jitter: (Scalar, Scalar),
) -> (r: Ray)
    ensures
        r == primary_ray(*camera, width as int, height as int, x as int, y as int, jitter),
{
    camera.get_ray(
        Scalar::from_int(x as i64).add(jitter.0).div(Scalar::from_int(width as i64)),
        Scalar::from_int(y as i64).add(jitter.1).div(Scalar::from_int(height as i64)),
    )
}

/// The light that one path brings to pixel `(x, y)`, for what was drawn
/// beforehand for it.
fn sample_color(
    scene: &Scene,
    camera: &Camera,
    width: u32,
    height: u32,
    x: u32,
    y: u32,
    depth: u32,
    path: &Vec<(Scalar, Scalar)>,
) -> (r: Vec3)
    ensures
        r == sample_spec(
            scene,
            *camera,
            width as int,
            height as int,
            x as int,
            y as int,
            depth as nat,
            path@,
        ),
{
    let mut jitter = (Scalar { raw: 0 }, Scalar { raw: 0 });
    let mut offsets: Vec<(Scalar, Scalar)> = Vec::new();
    if path.len() > 0 {
        jitter = path[0];
        let mut k: usize = 1;
        while k < path.len()
            invariant
                1 <= k <= path.len(),
                offsets@ == path@.subrange(1, k as int),
            decreases path.len() - k,
        {
            offsets.push(path[k]);
            proof {
                assert(offsets@ =~= path@.subrange(1, k + 1));
            }
            k += 1;
        }
        assert(offsets@ =~= path@.skip(1));
    } else {
        assert(offsets@ =~= path@);
    }
    let ray = primary(camera, width, height, x, y, jitter);
    trace_path(&ray, scene, depth, &offsets)
}

/// The mean of the light that `count` paths bring to pixel `(x, y)`. What
/// is drawn for the paths is taken from `given`, which holds `count` paths,
/// or is drawn path by path where nothing is given.
fn estimate(
    scene: &Scene,
    camera: &Camera,
    width: u32,
    height: u32,
    x: u32,
    y: u32,
    depth: u32,
    count: usize,
    given: Option<&Vec<Vec<(Scalar, Scalar)>>>,
) -> (r: Vec3)
    requires
        given matches Some(paths) ==> paths.len() == count,
    ensures
        given matches Some(paths) ==> r == pixel_spec(
            scene,
            *camera,
            width as int,
            height as int,
            x as int,
            y as int,
            depth as nat,
            paths_view(paths@),
        ),
        given is None ==> is_estimate(
            scene,
            *camera,
            width as int,
            height as int,
            x as int,
            y as int,
            count as nat,
            depth as nat,
            r,
        ),
{
    // What was drawn, or taken as given, for the paths so far.
    let ghost mut all = Seq::<Seq<(Scalar, Scalar)>>::empty();
    let mut color = Vec3::zeros();
    let mut k: usize = 0;
    while k < count
        invariant
            k <= count,
            all.len() == k,
            given matches Some(paths) ==> paths.len() == count && all =~= paths_view(paths@).take(
                k as int,
            ),
            given is None ==> forall|j: int| 0 <= j < all.len() ==> is_path(#[trigger] all[j]),
            color == sum_spec(
                scene,
                *camera,
                width as int,
                height as int,
                x as int,
                y as int,
                depth as nat,
                all,
            ),
        decreases count - k,
    {
        let ghost path: Seq<(Scalar, Scalar)>;
        let incoming = match given {
            Some(paths) => {
                proof {
                    path = paths@[k as int]@;
                    assert(paths_view(paths@).take(k + 1) =~= all.push(path));
                }
                sample_color(scene, camera, width, height, x, y, depth, &paths[k])
            },
            None => {
                let jitter_x =
                    random_scalar(Scalar { raw: -JITTER_RAW }, Scalar { raw: JITTER_RAW });
                let jitter_y =
                    random_scalar(Scalar { raw: -JITTER_RAW }, Scalar { raw: JITTER_RAW });

                let ray = primary(camera, width, height, x, y, (jitter_x, jitter_y));
                let incoming = trace_ray(&ray, scene, depth);
                proof {
                    let offsets = choose|offsets: Seq<(Scalar, Scalar)>|
                        are_offsets(offsets) && incoming == #[trigger] scene.radiance(
                            ray,
                            depth as nat,
                            offsets,
                        );
                    path = seq![(jitter_x, jitter_y)].add(offsets);
                    assert(path.skip(1) =~= offsets);
                    assert(next_offsets(path) == (jitter_x, jitter_y));
                    assert(is_path(path));
                }
                incoming
            },
        };
        proof {
            let longer = all.push(path);
            assert(longer.drop_last() =~= all);
            assert(longer.last() == path);
            all = longer;
        }
        color = color.add(incoming);
        k += 1;
    }
    let r = color.div(count_of(count));
    proof {
        assert(r == pixel_spec(
            scene,
            *camera,
            width as int,
            height as int,
            x as int,
            y as int,
            depth as nat,
            all,
        ));
        if let Some(paths) = given {
            assert(paths_view(paths@).take(k as int) =~= paths_view(paths@));
        }
    }
    r
}

/// The estimate for pixel `(x, y)` of an image of `width` by `height`
/// pixels: the mean of the light that the paths bring, each followed for at
/// most `depth` bounces, for what was drawn beforehand for each path.
pub fn pixel_color(
    scene: &Scene,
    camera: &Camera,
    width: u32,
    height: u32,
    x: u32,
    y: u32,
    depth: u32,
    paths: &Vec<Vec<(Scalar, Scalar)>>,
) -> (r: Vec3)
    ensures
        r == pixel_spec(
            scene,
            *camera,
            width as int,
            height as int,
            x as int,
            y as int,
            depth as nat,
            paths_view(paths@),
        ),
{
    estimate(scene, camera, width, height, x, y, depth, paths.len(), Some(paths))
}

/// A random estimate for pixel `(x, y)`: the mean of the light that
/// `samples_per_pixel` random paths bring, each moved at random within the
/// pixel and followed for at most `depth` bounces.
///
/// Whatever is drawn, the result is that of [`pixel_color`] for as many
/// paths that can be drawn.
pub fn sample_pixel(
    scene: &Scene,
    camera: &Camera,
    width: u32,
    height: u32,
    x: u32,
    y: u32,
    samples_per_pixel: u32,
    depth: u32,
) -> (r: Vec3)
    ensures
        is_estimate(
            scene,
            *camera,
            width as int,
            height as int,
            x as int,
            y as int,
            samples_per_pixel as nat,
            depth as nat,
            r,
        ),
{
    estimate(scene, camera, width, height, x, y, depth, samples_per_pixel as usize, None)
}

/// Renders the `total` pixels of an image of `width` by `height` pixels,
/// row by row from the bottom row up. What is drawn for the paths of each
/// pixel is taken from `given`, which holds `total` pixels, or is drawn
/// where nothing is given, for `samples_per_pixel` paths to each pixel.
fn render(
    scene: &Scene,
    camera: &Camera,
    width: u32,
    height: u32,
    samples_per_pixel: u32,
    max_depth: u32,
    total: usize,
    given: Option<&Vec<Vec<Vec<(Scalar, Scalar)>>>>,
) -> (framebuffer: Vec<Vec3>)
    requires
        total == width * height,
        given matches Some(paths) ==> paths.len() == total,
    ensures
        framebuffer.len() == total,
        given matches Some(paths) ==> forall|i: int|
            0 <= i < framebuffer.len() ==> #[trigger] framebuffer[i] == pixel_spec(
                scene,
                *camera,
                width as int,
                height as int,
                i % (width as int),
                i / (width as int),
                max_depth as nat,
                paths_view(paths[i]@),
            ),
        given is None ==> forall|i: int|
            0 <= i < framebuffer.len() ==> is_estimate(
                scene,
                *camera,
                width as int,
                height as int,
                i % (width as int),
                i / (width as int),
                samples_per_pixel as nat,
                max_depth as nat,
                #[trigger] framebuffer[i],
            ),
{
    let mut framebuffer: Vec<Vec3> = Vec::new();
    let mut i: usize = 0;
    while i < total
        invariant
            i <= total,
            total == width * height,
            given matches Some(paths) ==> paths.len() == total,
            framebuffer.len() == i,
            given matches Some(paths) ==> forall|j: int|
                0 <= j < i ==> #[trigger] framebuffer[j] == pixel_spec(
                    scene,
                    *camera,
                    width as int,
                    height as int,
                    j % (width as int),
                    j / (width as int),
                    max_depth as nat,
                    paths_view(paths[j]@),
                ),
            given is None ==> forall|j: int|
                0 <= j < i ==> is_estimate(
                    scene,
                    *camera,
                    width as int,
                    height as int,
                    j % (width as int),
                    j / (width as int),
                    samples_per_pixel as nat,
                    max_depth as nat,
                    #[trigger] framebuffer[j],
                ),
        decreases total - i,
    {
        assert(width > 0) by (nonlinear_arith)
            requires
                i < width * height,
                0 <= i,
        ;
        let x = i % (width as usize);
        let y = i / (width as usize);
        proof {
            vstd::arithmetic::div_mod::lemma_fundamental_div_mod(i as int, width as int);
            vstd::arithmetic::div_mod::lemma_mod_bound(i as int, width as int);
            assert(y < height) by (nonlinear_arith)
                requires
                    i < width * height,
                    i == width * y + x,
                    0 <= x,
                    0 < width,
            ;
        }
        let color = match given {
            Some(paths) => pixel_color(
                scene,
                camera,
                width,
                height,
                x as u32,
                y as u32,
                max_depth,
                &paths[i],
            ),
            None => sample_pixel(
                scene,
                camera,
                width,
                height,
                x as u32,
                y as u32,
                samples_per_pixel,
                max_depth,
            ),
        };
        framebuffer.push(color);
        i += 1;
    }
    framebuffer
}

/// Renders `scene` as `camera` sees it: an image of `width` by `height`
/// pixels, row by row from the bottom row up, each pixel the random
/// estimate of [`sample_pixel`].
pub fn render_scene(
    scene: &Scene,
    camera: &Camera,
    width: u32,
    height: u32,
    samples_per_pixel: u32,
    max_depth: u32,
) -> (framebuffer: Vec<Vec3>)
    requires
        width * height <= usize::MAX,
    ensures
        framebuffer.len() == width * height,
        forall|i: int|
            0 <= i < framebuffer.len() ==> is_estimate(
                scene,
                *camera,
                width as int,
                height as int,
                i % (width as int),
                i / (width as int),
                samples_per_pixel as nat,
                max_depth as nat,
                #[trigger] framebuffer[i],
            ),
{
    assert(0 <= width * height) by (nonlinear_arith)
        requires
            0 <= width,
            0 <= height,
    ;
    let total = width as usize * height as usize;
    render(scene, camera, width, height, samples_per_pixel, max_depth, total, None)
}

/// Renders `scene` as `camera` sees it, for what was drawn beforehand:
/// `paths` holds, pixel by pixel and row by row from the bottom row up, what
/// was drawn for each path of the pixel. Each pixel is the estimate of
/// [`pixel_color`]. There is no image where `paths` does not hold
/// `width * height` pixels.
pub fn render_paths(
    scene: &Scene,
    camera: &Camera,
    width: u32,
    height: u32,
    max_depth: u32,
    paths: &Vec<Vec<Vec<(Scalar, Scalar)>>>,
) -> (r: Option<Vec<Vec3>>)
    ensures
        r is Some <==> paths.len() == width * height,
        r matches Some(framebuffer) ==> framebuffer.len() == paths.len() && forall|i: int|
            0 <= i < framebuffer.len() ==> #[trigger] framebuffer[i] == pixel_spec(
                scene,
                *camera,
                width as int,
                height as int,
                i % (width as int),
                i / (width as int),
                max_depth as nat,
                paths_view(paths[i]@),
            ),
{
    if width == 0 || height == 0 {
        assert(width * height == 0) by (nonlinear_arith)
            requires
                width == 0 || height == 0,
        ;
        return if paths.len() == 0 {
            Some(Vec::new())
        } else {
            None
        };
    }
    let rows = paths.len() / (width as usize);
    let rest = paths.len() % (width as usize);
    proof {
        vstd::arithmetic::div_mod::lemma_fundamental_div_mod(paths.len() as int, width as int);
        if paths.len() == width * height {
            vstd::arithmetic::div_mod::lemma_fundamental_div_mod_converse(
                paths.len() as int,
                width as int,
                height as int,
                0,
            );
        }
        if rest == 0 && rows == height {
            assert(width * (paths.len() as int / (width as int)) == width * height);
        }
    }
    if rest != 0 || rows != height as usize {
        return None;
    }
    Some(render(scene, camera, width, height, 0, max_depth, paths.len(), Some(paths)))
}

/// Whether `count` times each component of `v` is still a scalar, so that
/// `count` copies of `v` can be summed without saturating.
pub open spec fn sums_in_range(v: Vec3, count: int) -> bool {
    &&& i64::MIN <= count * v.x.raw <= i64::MAX
    &&& i64::MIN <= count * v.y.raw <= i64::MAX
    &&& i64::MIN <= count * v.z.raw <= i64::MAX
}

/// `count` times `v`, component by component.
pub open spec fn repeated(v: Vec3, count: int) -> Vec3 {
    Vec3 {
        x: Scalar { raw: (count * v.x.raw) as i64 },
        y: Scalar { raw: (count * v.y.raw) as i64 },
        z: Scalar { raw: (count * v.z.raw) as i64 },
    }
}

/// Where fewer copies are summed, the sum is in range too.
proof fn lemma_sums_in_range_below(v: Vec3, count: int, fewer: int)
    requires
        sums_in_range(v, count),
        0 <= fewer <= count,
    ensures
        sums_in_range(v, fewer),
{
    assert(sums_in_range(v, fewer)) by (nonlinear_arith)
        requires
            sums_in_range(v, count),
            0 <= fewer <= count,
    ;
}

/// Where every path brings the same light, their sum is that light times
/// their number.
proof fn lemma_sum_of_equal_samples(
    scene: &Scene,
    camera: Camera,
    width: int,
    height: int,
    x: int,
    y: int,
    depth: nat,
    paths: Seq<Seq<(Scalar, Scalar)>>,
    light: Vec3,
)
    requires
        sums_in_range(light, paths.len() as int),
        forall|k: int|
            0 <= k < paths.len() ==> sample_spec(
                scene,
                camera,
                width,
                height,
                x,
                y,
                depth,
                #[trigger] paths[k],
            ) == light,
    ensures
        sum_spec(scene, camera, width, height, x, y, depth, paths) == repeated(
            light,
            paths.len() as int,
        ),
    decreases paths.len(),
{
    if paths.len() > 0 {
        let before = paths.drop_last();
        lemma_sums_in_range_below(light, paths.len() as int, before.len() as int);
        assert(forall|k: int| 0 <= k < before.len() ==> before[k] == paths[k]);
        lemma_sum_of_equal_samples(scene, camera, width, height, x, y, depth, before, light);
        assert(sample_spec(scene, camera, width, height, x, y, depth, paths.last()) == light);
        let n = paths.len() as int;
        assert((n - 1) * light.x.raw + light.x.raw == n * light.x.raw) by (nonlinear_arith);
        assert((n - 1) * light.y.raw + light.y.raw == n * light.y.raw) by (nonlinear_arith);
        assert((n - 1) * light.z.raw + light.z.raw == n * light.z.raw) by (nonlinear_arith);
    }
}

/// A scalar times a count, divided by the count, is the scalar again.
proof fn lemma_mean_of_repeated(v: Scalar, count: int)
    requires
        0 < count,
        count * SCALE <= i64::MAX,
        i64::MIN <= count * v.raw <= i64::MAX,
    ensures
        (Scalar { raw: (count * v.raw) as i64 }).over(Scalar::whole(count)) == v,
{
    let d = count * SCALE;
    assert(count * v.raw * SCALE == d * v.raw) by (nonlinear_arith)
        requires
            d == count * SCALE,
    ;
    assert(d > 0) by (nonlinear_arith)
        requires
            d == count * SCALE,
            0 < count,
            SCALE == 1_000_000_000,
    ;
    vstd::arithmetic::div_mod::lemma_div_multiples_vanish(v.raw as int, d);
}

/// A pixel that sees nothing but one kind of light takes that light's
/// radiance, whatever the number of its paths.
///
/// This holds of a scene in which every surface is a light of the radiance
/// `emitted_color`, such as one sphere that gives off light, and of a pixel
/// each of whose paths starts with a ray that hits a surface. It is stated
/// for a radiance that can be summed over the paths without saturating.
pub proof fn lemma_lights_alone_fill_pixel(
    scene: &Scene,
    camera: Camera,
    width: int,
    height: int,
    x: int,
    y: int,
    depth: nat,
    paths: Seq<Seq<(Scalar, Scalar)>>,
    emitted_color: Vec3,
)
    requires
        depth > 0,
        paths.len() > 0,
        paths.len() * SCALE <= i64::MAX,
        sums_in_range(emitted_color, paths.len() as int),
        forall|i: int|
            0 <= i < scene.surfaces().len() ==> scene.materials()[(
            #[trigger] scene.surfaces()[i]).material_spec() as int] == MaterialKind::Emissive(
                Emissive { emitted_color },
            ),
        forall|k: int|
            0 <= k < paths.len() ==> scene.closest_hit_spec(
                primary_ray(camera, width, height, x, y, next_offsets(#[trigger] paths[k])),
            ) is Some,
    ensures
        pixel_spec(scene, camera, width, height, x, y, depth, paths) == emitted_color,
{
    assert forall|k: int| 0 <= k < paths.len() implies sample_spec(
        scene,
        camera,
        width,
        height,
        x,
        y,
        depth,
        #[trigger] paths[k],
    ) == emitted_color by {
        let ray = primary_ray(camera, width, height, x, y, next_offsets(paths[k]));
        let hit = scene.closest_hit_spec(ray)->Some_0;
        lemma_closest_hit_is_nearest(scene.surfaces(), ray);
        let i = choose|i: int| is_nearest_hit(hits_on(scene.surfaces(), ray), i, hit);
        lemma_hit_keeps_material(scene.surfaces()[i], ray);
        assert(hit.material == scene.surfaces()[i].material_spec());
        lemma_radiance_of_a_light(scene, ray, depth, later_offsets(paths[k]), hit, emitted_color);
    }
    lemma_sum_of_equal_samples(scene, camera, width, height, x, y, depth, paths, emitted_color);
    let n = paths.len() as int;
    lemma_mean_of_repeated(emitted_color.x, n);
    lemma_mean_of_repeated(emitted_color.y, n);
    lemma_mean_of_repeated(emitted_color.z, n);
}

/// The pixel `(x, y)` of an image stands at place `y * width + x` of its
/// rows laid end to end, and that place is within the image.
pub proof fn lemma_pixel_index(width: int, height: int, x: int, y: int)
    requires
        0 <= x < width,
        0 <= y < height,
    ensures
        0 <= y * width + x < width * height,
        (y * width + x) % width == x,
        (y * width + x) / width == y,
{
    vstd::arithmetic::div_mod::lemma_fundamental_div_mod_converse(y * width + x, width, y, x);
    assert(y * width + x < width * height) by (nonlinear_arith)
        requires
            0 <= x < width,
            0 <= y < height,
    ;
    assert(0 <= y * width) by (nonlinear_arith)
        requires
            0 <= y,
            0 < width,
    ;
}

} // verus!
