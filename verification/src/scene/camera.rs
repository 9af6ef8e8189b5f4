//! The camera: from a place on the image to a ray into the scene.

use vstd::prelude::*;
use crate::math::ray::Ray;
use vstd::arithmetic::div_mod::*;
use crate::math::vec3::{boost, lemma_norm_of_zero, lemma_normalize_is_unit, Vec3};
use crate::scalar::{floor_sqrt, lemma_floor_sqrt_exists};
use crate::scalar::{Scalar, HALF_RAW, SCALE};

verus! {

/// A pinhole camera with its image plane.
#[derive(Clone, Copy, Debug, PartialEq, Eq, Structural)]
pub struct Camera {
    /// Where the camera stands.
    pub position: Vec3,
    /// The unit direction in which it looks.
    pub forward: Vec3,
    /// The field of view, in degrees.
    pub fov: Scalar,
    /// The distance from the camera to the image plane.
    pub focal_length: Scalar,
    /// The lower left corner of the image plane.
    pub lower_left_corner: Vec3,
    /// The image plane's lower edge, from left to right.
    pub horizontal: Vec3,
    /// The image plane's left edge, from the bottom up.
    pub vertical: Vec3,
}

impl Camera {
    /// The world's up direction, the Y axis.
    pub open spec fn world_up() -> Vec3 {
        Vec3 { x: Scalar::zero(), y: Scalar::one(), z: Scalar::zero() }
    }

    /// The unit direction from `position` to `look_at`.
    pub open spec fn forward_spec(position: Vec3, look_at: Vec3) -> Vec3 {
        look_at.minus(position).normalize_spec()
    }

    /// The unit direction to the right of `forward`: the normalized cross
    /// product of the opposite of `forward` with the world's up direction.
    pub open spec fn right_spec(forward: Vec3) -> Vec3 {
        forward.negated().cross_spec(Camera::world_up()).normalize_spec()
    }

    /// The camera's own up direction.
    pub open spec fn up_spec(forward: Vec3) -> Vec3 {
        Camera::right_spec(forward).cross_spec(forward)
    }

    /// The height of the image plane at unit distance: twice the tangent of
    /// half the field of view.
    pub open spec fn viewport_height(fov: Scalar) -> Scalar {
        Scalar::whole(2).times(fov.to_radians_spec().over(Scalar::whole(2)).tan_spec())
    }

    /// The width of the image plane at unit distance.
    pub open spec fn viewport_width(fov: Scalar, aspect_ratio: Scalar) -> Scalar {
        Camera::viewport_height(fov).times(aspect_ratio)
    }

    /// Whether a camera at `position` can look at `look_at`: whether the
    /// two are apart, and the view is not straight up or down, along the
    /// world's up direction, where there is no telling right from left.
    pub open spec fn has_view(position: Vec3, look_at: Vec3) -> bool {
        &&& look_at.minus(position) != Vec3::zero()
        &&& Camera::forward_spec(position, look_at).negated().cross_spec(Camera::world_up())
            != Vec3::zero()
    }

    /// The camera at `position` that looks at `look_at`.
    pub open spec fn new_spec(
        position: Vec3,
        look_at: Vec3,
        fov: Scalar,
        focal_length: Scalar,
        aspect_ratio: Scalar,
    ) -> Camera {
        let forward = Camera::forward_spec(position, look_at);
        let horizontal = Camera::right_spec(forward).scaled(
            Camera::viewport_width(fov, aspect_ratio),
        ).scaled(focal_length);
        let vertical = Camera::up_spec(forward).scaled(Camera::viewport_height(fov)).scaled(
            focal_length,
        );
        let half = Scalar { raw: HALF_RAW };
        Camera {
            position,
            forward,
            fov,
            focal_length,
            lower_left_corner: position.plus(forward.scaled(focal_length)).minus(
                horizontal.scaled(half),
            ).minus(vertical.scaled(half)),
            horizontal,
            vertical,
        }
    }

    /// The ray through the place `(s, t)` of the image, `(0, 0)` being the
    /// lower left corner and `(1, 1)` the upper right. Its direction is
    /// `lower_left_corner + horizontal * s + vertical * t - position`, not
    /// normalized.
    pub open spec fn get_ray_spec(self, s: Scalar, t: Scalar) -> Ray {
        Ray::new_spec(
            self.position,
            self.lower_left_corner.plus(self.horizontal.scaled(s)).plus(
                self.vertical.scaled(t),
            ).minus(self.position),
        )
    }

    /// Makes the camera at `position` that looks at `look_at`, with the
    /// field of view `fov` in degrees, the image plane at `focal_length`
    /// and an image `aspect_ratio` times as wide as it is high.
    ///
    /// There is no such camera where `look_at` is `position` itself, or
    /// straight above or below it. Of the camera that is made, the forward
    /// and the right direction have unit length to within four raw units,
    /// and the up direction to within `UP_SLACK_RAW`; the right direction
    /// is level and square to the forward direction, to within three raw
    /// units of their dot product.
    pub fn new(
        position: Vec3,
        look_at: Vec3,
        fov: Scalar,
        focal_length: Scalar,
        aspect_ratio: Scalar,
    ) -> (r: Option<Camera>)
        ensures
            r is Some <==> Camera::has_view(position, look_at),
            r matches Some(camera) ==> camera == Camera::new_spec(
                position,
                look_at,
                fov,
                focal_length,
                aspect_ratio,
            ) && camera.forward.is_unit() && Camera::right_spec(camera.forward).is_unit()
                && Camera::up_spec(camera.forward).is_unit_within(UP_SLACK_RAW as int)
                && Camera::right_spec(camera.forward).y.raw == 0 && -3 <= Camera::right_spec(
                camera.forward,
            ).dot_spec(camera.forward).raw <= 3,
    {
        let world_up = Vec3::new(Scalar { raw: 0 }, Scalar { raw: SCALE }, Scalar { raw: 0 });
        let ahead = look_at.sub(position);
        if ahead.x.raw == 0 && ahead.y.raw == 0 && ahead.z.raw == 0 {
            return None;
        }
        proof {
            lemma_norm_of_zero(ahead);
        }
        let forward = ahead.normalize();
        let sideways = forward.neg().cross(&world_up);
        if sideways.x.raw == 0 && sideways.y.raw == 0 && sideways.z.raw == 0 {
            return None;
        }
        proof {
            lemma_norm_of_zero(sideways);
            lemma_normalize_is_unit(ahead);
            lemma_up_is_unit(forward);
            lemma_right_is_square_to_forward(forward);
        }
        let right = sideways.normalize();
        let up = right.cross(&forward);

        let theta = fov.to_radians();
        let two = Scalar { raw: 2 * SCALE };
        let h = theta.div(two).tan();

        let viewport_height = two.mul(h);
        let viewport_width = viewport_height.mul(aspect_ratio);

        let horizontal = right.scale(viewport_width).scale(focal_length);
        let vertical = up.scale(viewport_height).scale(focal_length);

        let half = Scalar { raw: HALF_RAW };
        let lower_left_corner = position.add(forward.scale(focal_length)).sub(
            horizontal.scale(half),
        ).sub(vertical.scale(half));

        Some(
            Camera {
                position,
                forward,
                fov,
                focal_length,
                lower_left_corner,
                horizontal,
                vertical,
            },
        )
    }

    /// The ray from the camera through the place `(s, t)` of the image.
    pub fn get_ray(&self, s: Scalar, t: Scalar) -> (r: Ray)
        ensures
            r == self.get_ray_spec(s, t),
    {
        let direction = self.lower_left_corner.add(self.horizontal.scale(s)).add(
            self.vertical.scale(t),
        ).sub(self.position);
        Ray::new(self.position, direction)
    }
}

/// How far the length of a camera's up direction may be from one, in raw
/// units.
pub const UP_SLACK_RAW: i64 = 13;

/// The square of a product is the product of the squares.
proof fn lemma_product_square(x: int, y: int)
    ensures
        (x * x) * (y * y) == (x * y) * (x * y),
{
    assert((x * x) * (y * y) == (x * y) * (x * y)) by (nonlinear_arith);
}

/// The squared length of the cross product of `(rx, 0, rz)` and
/// `(fx, fy, fz)` is the product of their squared lengths less the square
/// of their dot product.
#[verifier::rlimit(60)]
proof fn lemma_cross_square(rx: int, rz: int, fx: int, fy: int, fz: int)
    ensures
        (rz * fy) * (rz * fy) + (rz * fx - rx * fz) * (rz * fx - rx * fz) + (rx * fy) * (rx * fy)
            == (rx * rx + rz * rz) * (fx * fx + fy * fy + fz * fz) - (rx * fx + rz * fz) * (rx
            * fx + rz * fz),
{
    let a = rz * fy;
    let b = rz * fx;
    let c = rx * fz;
    let e = rx * fy;
    let g = rx * fx;
    let h = rz * fz;
    let r1 = rx * rx;
    let r2 = rz * rz;
    let f1 = fx * fx;
    let f2 = fy * fy;
    let f3 = fz * fz;
    lemma_product_square(rx, fx);
    lemma_product_square(rx, fy);
    lemma_product_square(rx, fz);
    lemma_product_square(rz, fx);
    lemma_product_square(rz, fy);
    lemma_product_square(rz, fz);
    assert(b * c == g * h) by (nonlinear_arith)
        requires
            b == rz * fx,
            c == rx * fz,
            g == rx * fx,
            h == rz * fz,
    ;
    assert((r1 + r2) * (f1 + f2 + f3) == r1 * f1 + r1 * f2 + r1 * f3 + r2 * f1 + r2 * f2 + r2
        * f3) by (nonlinear_arith);
    assert((b - c) * (b - c) == b * b - 2 * (b * c) + c * c) by (nonlinear_arith);
    assert((g + h) * (g + h) == g * g + 2 * (g * h) + h * h) by (nonlinear_arith);
}

/// The right direction is close to square to the forward direction: the
/// dot product of the two quotients with `(fx, fz)` is at most two.
#[verifier::rlimit(60)]
proof fn lemma_right_is_square(m: int, n: int, fx: int, fz: int, rx: int, rz: int)
    requires
        n > 0,
        -SCALE <= fx <= SCALE,
        -SCALE <= fz <= SCALE,
        rx == (m * fz * SCALE) / n,
        rz == (m * (-fx) * SCALE) / n,
    ensures
        -2 * SCALE <= rx * fx + rz * fz <= 2 * SCALE,
{
    let a = m * fz * SCALE;
    let b = m * (-fx) * SCALE;
    let ra = a % n;
    let rb = b % n;
    lemma_fundamental_div_mod(a, n);
    lemma_fundamental_div_mod(b, n);
    lemma_mod_bound(a, n);
    lemma_mod_bound(b, n);
    let d = rx * fx + rz * fz;
    let k = m * SCALE;
    assert(a == k * fz && b == -(k * fx)) by (nonlinear_arith)
        requires
            a == m * fz * SCALE,
            b == m * (-fx) * SCALE,
            k == m * SCALE,
    ;
    assert(a * fx + b * fz == 0) by (nonlinear_arith)
        requires
            a == k * fz,
            b == -(k * fx),
    ;
    let nx = n * rx;
    let nz = n * rz;
    assert(n * d == nx * fx + nz * fz) by (nonlinear_arith)
        requires
            d == rx * fx + rz * fz,
            nx == n * rx,
            nz == n * rz,
    ;
    assert(nx * fx == a * fx - ra * fx) by (nonlinear_arith)
        requires
            nx == a - ra,
    ;
    assert(nz * fz == b * fz - rb * fz) by (nonlinear_arith)
        requires
            nz == b - rb,
    ;
    assert(-(n * SCALE) <= ra * fx <= n * SCALE && -(n * SCALE) <= rb * fz <= n * SCALE)
        by (nonlinear_arith)
        requires
            0 <= ra < n,
            0 <= rb < n,
            -SCALE <= fx <= SCALE,
            -SCALE <= fz <= SCALE,
    ;
    assert(-2 * SCALE <= d <= 2 * SCALE) by (nonlinear_arith)
        requires
            -(2 * (n * SCALE)) <= n * d <= 2 * (n * SCALE),
            n > 0,
    ;
}

/// One rounded product: `SCALE` times the quotient is within `SCALE` of
/// the product, and its square is close to the product's square.
proof fn lemma_rounded_product(p: int, q: int, bound: int)
    requires
        q == p / (SCALE as int),
        -bound <= p <= bound,
        0 <= bound,
    ensures
        0 <= p - SCALE * q < SCALE,
{
    lemma_fundamental_div_mod(p, SCALE as int);
    lemma_mod_bound(p, SCALE as int);
}

/// The square of a number that is within `SCALE` of `x`, where `x` has at
/// most the size `bound`, is within `2 * bound * SCALE + SCALE * SCALE` of
/// the square of `x`.
#[verifier::rlimit(60)]
proof fn lemma_square_nearby(x: int, t: int, bound: int)
    requires
        -bound <= x <= bound,
        -SCALE < t < SCALE,
        0 <= bound,
    ensures
        x * x - 2 * (bound * SCALE) <= (x + t) * (x + t) <= x * x + 2 * (bound * SCALE) + SCALE
            * SCALE,
{
    let xt = x * t;
    let tt = t * t;
    assert((x + t) * (x + t) == x * x + 2 * xt + tt) by (nonlinear_arith)
        requires
            xt == x * t,
            tt == t * t,
    ;
    assert(-(bound * SCALE) <= xt <= bound * SCALE) by (nonlinear_arith)
        requires
            -bound <= x <= bound,
            -SCALE < t < SCALE,
            0 <= bound,
            xt == x * t,
    ;
    assert(0 <= tt <= SCALE * SCALE) by (nonlinear_arith)
        requires
            -SCALE < t < SCALE,
            tt == t * t,
    ;
}

/// The right direction of a camera is square to its forward direction:
/// the dot product of the two is at most three raw units in size.
#[verifier::rlimit(60)]
pub proof fn lemma_right_is_square_to_forward(forward: Vec3)
    requires
        -SCALE <= forward.x.raw <= SCALE,
        -SCALE <= forward.y.raw <= SCALE,
        -SCALE <= forward.z.raw <= SCALE,
        forward.negated().cross_spec(Camera::world_up()) != Vec3::zero(),
    ensures
        -3 <= Camera::right_spec(forward).dot_spec(forward).raw <= 3,
        Camera::right_spec(forward).y.raw == 0,
{
    let fx = forward.x.raw as int;
    let fy = forward.y.raw as int;
    let fz = forward.z.raw as int;
    let s = SCALE as int;
    let c = forward.negated().cross_spec(Camera::world_up());
    lemma_div_multiples_vanish(-fx, s);
    lemma_div_multiples_vanish(-fz, s);
    assert((-fx) * s == s * (-fx) && (-fz) * s == s * (-fz)) by (nonlinear_arith);
    assert((-fx) * 0 == 0 && (-fy) * 0 == 0 && (-fz) * 0 == 0);
    assert(c.x.raw == fz && c.y.raw == 0 && c.z.raw == -fx);
    let right = c.normalize_spec();
    lemma_normalize_is_unit(c);
    let m = boost(c.reach());
    let n = floor_sqrt(c.boosted_square_sum(m));
    let rx = right.x.raw as int;
    let rz = right.z.raw as int;
    assert(m * 0 * s == 0) by (nonlinear_arith);
    lemma_div_of0(n);
    assert(right.y.raw == 0);
    lemma_right_is_square(m, n, fx, fz, rx, rz);
    let ss = s * s;
    assert(-ss <= rx * fx <= ss && -ss <= rz * fz <= ss) by (nonlinear_arith)
        requires
            -s <= rx <= s,
            -s <= rz <= s,
            -s <= fx <= s,
            -s <= fz <= s,
            ss == s * s,
    ;
    let q1 = (rx * fx) / s;
    let q3 = (rz * fz) / s;
    lemma_rounded_product(rx * fx, q1, ss);
    lemma_rounded_product(rz * fz, q3, ss);
    assert(0 * fy == 0);
    assert(-s <= q1 <= s && -s <= q3 <= s) by (nonlinear_arith)
        requires
            0 <= rx * fx - s * q1 < s,
            0 <= rz * fz - s * q3 < s,
            -ss <= rx * fx <= ss,
            -ss <= rz * fz <= ss,
            ss == s * s,
            s == 1_000_000_000,
    ;
    let dot = rx * fx + rz * fz;
    assert(-3 <= q1 + q3 <= 3) by (nonlinear_arith)
        requires
            0 <= rx * fx - s * q1 < s,
            0 <= rz * fz - s * q3 < s,
            -2 * s <= rx * fx + rz * fz <= 2 * s,
            s == 1_000_000_000,
    ;
    assert(right.dot_spec(forward).raw == q1 + q3);
}

/// The up direction of a camera has unit length, to within
/// `UP_SLACK_RAW` raw units: it is the cross product of two unit vectors
/// that are square to each other, but for rounding.
#[verifier::rlimit(60)]
pub proof fn lemma_up_is_unit(forward: Vec3)
    requires
        forward.is_unit(),
        -SCALE <= forward.x.raw <= SCALE,
        -SCALE <= forward.y.raw <= SCALE,
        -SCALE <= forward.z.raw <= SCALE,
        forward.negated().cross_spec(Camera::world_up()) != Vec3::zero(),
    ensures
        Camera::up_spec(forward).is_unit_within(UP_SLACK_RAW as int),
{
    let fx = forward.x.raw as int;
    let fy = forward.y.raw as int;
    let fz = forward.z.raw as int;
    let s = SCALE as int;
    // The cross product with the world's up direction is exact.
    let c = forward.negated().cross_spec(Camera::world_up());
    lemma_div_multiples_vanish(-fx, s);
    lemma_div_multiples_vanish(-fz, s);
    assert((-fx) * s == s * (-fx) && (-fz) * s == s * (-fz)) by (nonlinear_arith);
    assert((-fx) * 0 == 0 && (-fy) * 0 == 0 && (-fz) * 0 == 0);
    assert(c.x.raw == fz && c.y.raw == 0 && c.z.raw == -fx);
    // Its normalized form is the right direction.
    let right = c.normalize_spec();
    lemma_normalize_is_unit(c);
    let m = boost(c.reach());
    let n = floor_sqrt(c.boosted_square_sum(m));
    let rx = right.x.raw as int;
    let rz = right.z.raw as int;
    assert(m * 0 * s == 0) by (nonlinear_arith);
    lemma_div_of0(n);
    assert(right.y.raw == 0);
    assert(rx == (m * fz * s) / n);
    assert(rz == (m * (-fx) * s) / n);
    lemma_right_is_square(m, n, fx, fz, rx, rz);
    let dot = rx * fx + rz * fz;
    // The squared lengths of the two.
    let rr = rx * rx + rz * rz;
    let ff = fx * fx + fy * fy + fz * fz;
    assert(right.square_sum() == rr) by (nonlinear_arith)
        requires
            right.square_sum() == right.x.raw * right.x.raw + right.y.raw * right.y.raw
                + right.z.raw * right.z.raw,
            right.y.raw == 0,
            rx == right.x.raw,
            rz == right.z.raw,
            rr == rx * rx + rz * rz,
    ;
    assert(forward.square_sum() == ff);
    assert(rr >= 0 && ff >= 0) by (nonlinear_arith)
        requires
            rr == rx * rx + rz * rz,
            ff == fx * fx + fy * fy + fz * fz,
    ;
    lemma_floor_sqrt_exists(rr);
    lemma_floor_sqrt_exists(ff);
    let lr = floor_sqrt(rr);
    let lf = floor_sqrt(ff);
    assert((s - 4) * (s - 4) <= rr < (s + 5) * (s + 5)) by (nonlinear_arith)
        requires
            s - 4 <= lr <= s + 4,
            lr * lr <= rr < (lr + 1) * (lr + 1),
            s == 1_000_000_000,
    ;
    assert((s - 4) * (s - 4) <= ff < (s + 5) * (s + 5)) by (nonlinear_arith)
        requires
            s - 4 <= lf <= s + 4,
            lf * lf <= ff < (lf + 1) * (lf + 1),
            s == 1_000_000_000,
    ;
    // The exact cross product of the two, by its squared length.
    let ex = -(rz * fy);
    let ey = rz * fx - rx * fz;
    let ez = rx * fy;
    lemma_cross_square(rx, rz, fx, fy, fz);
    let exact = ex * ex + ey * ey + ez * ez;
    assert(ex * ex == (rz * fy) * (rz * fy)) by (nonlinear_arith)
        requires
            ex == -(rz * fy),
    ;
    let dd = dot * dot;
    assert(0 <= dd <= 4 * (s * s)) by (nonlinear_arith)
        requires
            -2 * s <= dot <= 2 * s,
            dd == dot * dot,
    ;
    let product = rr * ff;
    assert(exact == product - dd);
    let low = (s - 4) * (s - 4);
    let high = (s + 5) * (s + 5);
    assert(low * low <= product < high * high) by (nonlinear_arith)
        requires
            low <= rr < high,
            low <= ff < high,
            0 < low,
            product == rr * ff,
    ;
    // Each product of two components has at most the size of one.
    let ss = s * s;
    assert(-ss <= rz * fy <= ss && -ss <= rz * fx <= ss && -ss <= rx * fz <= ss && -ss <= rx
        * fy <= ss) by (nonlinear_arith)
        requires
            -s <= rx <= s,
            -s <= rz <= s,
            -s <= fx <= s,
            -s <= fy <= s,
            -s <= fz <= s,
            ss == s * s,
    ;
    // The up direction, as the scalars compute it.
    let up = Camera::up_spec(forward);
    assert(0 * fz == 0 && 0 * fx == 0);
    let q1 = (rz * fy) / s;
    let q2 = (rz * fx) / s;
    let q3 = (rx * fz) / s;
    let q4 = (rx * fy) / s;
    lemma_rounded_product(rz * fy, q1, ss);
    lemma_rounded_product(rz * fx, q2, ss);
    lemma_rounded_product(rx * fz, q3, ss);
    lemma_rounded_product(rx * fy, q4, ss);
    assert(-s <= q1 <= s && -s <= q2 <= s && -s <= q3 <= s && -s <= q4 <= s) by (nonlinear_arith)
        requires
            0 <= rz * fy - s * q1 < s,
            0 <= rz * fx - s * q2 < s,
            0 <= rx * fz - s * q3 < s,
            0 <= rx * fy - s * q4 < s,
            -ss <= rz * fy <= ss,
            -ss <= rz * fx <= ss,
            -ss <= rx * fz <= ss,
            -ss <= rx * fy <= ss,
            ss == s * s,
            s == 1_000_000_000,
    ;
    let ux = up.x.raw as int;
    let uy = up.y.raw as int;
    let uz = up.z.raw as int;
    assert(ux == -q1 && uy == q2 - q3 && uz == q4);
    // Scaled up, it is within one of the exact cross product.
    let tx = s * ux - ex;
    let ty = s * uy - ey;
    let tz = s * uz - ez;
    assert(-s < tx < s && -s < ty < s && -s < tz < s);
    lemma_square_nearby(ex, tx, ss);
    lemma_square_nearby(ey, ty, 2 * ss);
    lemma_square_nearby(ez, tz, ss);
    let scaled = (s * ux) * (s * ux) + (s * uy) * (s * uy) + (s * uz) * (s * uz);
    let squares = ux * ux + uy * uy + uz * uz;
    lemma_product_square(s, ux);
    lemma_product_square(s, uy);
    lemma_product_square(s, uz);
    let sx = ux * ux;
    let sy = uy * uy;
    let sz = uz * uz;
    assert(ss * (sx + sy + sz) == ss * sx + ss * sy + ss * sz) by (nonlinear_arith);
    assert(scaled == ss * squares);
    assert(ex + tx == s * ux && ey + ty == s * uy && ez + tz == s * uz);
    let sss = ss * s;
    assert(ss * s == sss && (2 * ss) * s == 2 * sss);
    assert(exact - 8 * sss <= scaled <= exact + 8 * sss + 3 * ss);
    // So the sum of its squares is close to one.
    assert(low * low - 4 * ss - 8 * sss >= ss * (ss - 26 * s + 169)) by (nonlinear_arith)
        requires
            low == (s - 4) * (s - 4),
            ss == s * s,
            sss == ss * s,
            s == 1_000_000_000,
    ;
    assert(high * high + 8 * sss + 3 * ss <= ss * (ss + 28 * s + 196)) by (nonlinear_arith)
        requires
            high == (s + 5) * (s + 5),
            ss == s * s,
            sss == ss * s,
            s == 1_000_000_000,
    ;
    assert(ss - 26 * s + 169 <= squares < ss + 28 * s + 196) by (nonlinear_arith)
        requires
            ss * (ss - 26 * s + 169) <= ss * squares,
            ss * squares < ss * (ss + 28 * s + 196),
            ss > 0,
    ;
    assert(up.square_sum() == squares);
    lemma_floor_sqrt_exists(squares);
    let length = floor_sqrt(squares);
    assert(s - 13 <= length <= s + 13) by (nonlinear_arith)
        requires
            0 <= length,
            length * length <= squares < (length + 1) * (length + 1),
            ss - 26 * s + 169 <= squares < ss + 28 * s + 196,
            ss == s * s,
            s == 1_000_000_000,
    ;
}

} // verus!
