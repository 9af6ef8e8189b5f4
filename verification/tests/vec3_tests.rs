use path_tracer::math::{Ray, Vec3};
use path_tracer::scalar::{Scalar, SCALE};

fn sc(x: f64) -> Scalar {
    Scalar::from_raw((x * SCALE as f64).round() as i64)
}

fn fl(s: Scalar) -> f64 {
    s.raw as f64 / SCALE as f64
}

fn v3(x: f64, y: f64, z: f64) -> Vec3 {
    Vec3::new(sc(x), sc(y), sc(z))
}

fn close(a: Vec3, b: Vec3, tolerance: f64) -> bool {
    (fl(a.x) - fl(b.x)).abs() <= tolerance
        && (fl(a.y) - fl(b.y)).abs() <= tolerance
        && (fl(a.z) - fl(b.z)).abs() <= tolerance
}

#[test]
fn new_and_zeros() {
    let v = Vec3::new(sc(1.0), sc(2.0), sc(3.0));
    assert_eq!(v.x, sc(1.0));
    assert_eq!(v.y, sc(2.0));
    assert_eq!(v.z, sc(3.0));
    assert_eq!(Vec3::zeros(), v3(0.0, 0.0, 0.0));
}

#[test]
fn arithmetic_is_by_component() {
    let a = v3(1.0, 2.0, 3.0);
    let b = v3(0.5, -1.0, 4.0);
    assert_eq!(a.add(b), v3(1.5, 1.0, 7.0));
    assert_eq!(a.sub(b), v3(0.5, 3.0, -1.0));
    assert_eq!(a.neg(), v3(-1.0, -2.0, -3.0));
    assert_eq!(a.mul(b), v3(0.5, -2.0, 12.0));
    assert_eq!(a.scale(sc(2.0)), v3(2.0, 4.0, 6.0));
    assert_eq!(a.div(sc(2.0)), v3(0.5, 1.0, 1.5));
}

#[test]
fn dot_and_cross() {
    let a = v3(1.0, 2.0, 3.0);
    let b = v3(4.0, -5.0, 6.0);
    assert_eq!(a.dot(&b), sc(12.0));
    assert_eq!(a.cross(&b), v3(27.0, 6.0, -13.0));
    assert_eq!(v3(1.0, 0.0, 0.0).cross(&v3(0.0, 1.0, 0.0)), v3(0.0, 0.0, 1.0));
}

#[test]
fn norms_of_a_pythagorean_vector() {
    let v = v3(3.0, 4.0, 0.0);
    assert_eq!(v.norm_sq(), sc(25.0));
    assert_eq!(v.norm(), sc(5.0));
    assert_eq!(v.normalize(), v3(0.6, 0.8, 0.0));
}

#[test]
fn normalize_gives_unit_length() {
    let v = v3(1.0, -2.0, 3.5).normalize();
    assert!((fl(v.norm()) - 1.0).abs() < 1.0e-8);
}

#[test]
fn norm_is_zero_for_the_zero_vector_only() {
    assert_eq!(Vec3::zeros().norm(), sc(0.0));
    assert_eq!(Vec3::new(Scalar::from_raw(1), sc(0.0), sc(0.0)).norm(), Scalar::from_raw(1));
    assert_eq!(Vec3::new(sc(0.0), Scalar::from_raw(-1), sc(0.0)).norm(), Scalar::from_raw(1));
}

#[test]
fn norm_is_taken_of_the_exact_sum_of_squares() {
    assert_eq!(v3(0.00004, 0.0, 0.0).norm(), sc(0.00004));
    assert_eq!(v3(0.00003, 0.00004, 0.0).norm(), sc(0.00005));
    assert_eq!(v3(1.0, 1.0, 1.0).norm(), Scalar::from_raw(1_732_050_807));
    let far = Scalar::from_raw(i64::MAX);
    assert_eq!(Vec3::new(far, far, far).norm(), far);
}

#[test]
fn normalize_of_a_short_vector_has_unit_length() {
    assert_eq!(v3(0.00004, 0.0, 0.0).normalize(), v3(1.0, 0.0, 0.0));
    assert_eq!(v3(0.0, -0.000000001, 0.0).normalize(), v3(0.0, -1.0, 0.0));
    let tiny = Vec3::new(Scalar::from_raw(1), Scalar::from_raw(1), sc(0.0)).normalize();
    assert!((fl(tiny.x) - std::f64::consts::FRAC_1_SQRT_2).abs() < 1.0e-8);
    assert!((fl(tiny.y) - std::f64::consts::FRAC_1_SQRT_2).abs() < 1.0e-8);
    assert!(tiny.has_unit_length());
}

#[test]
fn normalize_has_unit_length_at_every_size() {
    let directions = [(3.0, -4.0, 12.0), (1.0, 1.0, 1.0), (-0.2, 0.9, 0.001), (0.0, 0.0, -7.0)];
    let sizes = [1.0e-9, 3.0e-7, 1.0e-4, 0.013, 1.0, 250.0, 1.0e6, 4.0e8];
    for (x, y, z) in directions {
        for size in sizes {
            let unit = v3(x * size, y * size, z * size).normalize();
            let length = unit.norm().raw;
            assert!(SCALE - 4 <= length && length <= SCALE + 4, "length {length}");
            assert!(unit.has_unit_length());
        }
    }
    let far = Scalar::from_raw(i64::MIN);
    assert!(Vec3::new(far, far, far).normalize().has_unit_length());
}

#[test]
fn normalize_keeps_the_direction() {
    for (x, y, z) in [(3.0, -4.0, 12.0), (-0.00002, 0.0, 0.00001), (0.0, 5.0e8, -1.0e-9)] {
        let v = v3(x, y, z);
        let unit = v.normalize();
        for (before, after) in [(v.x, unit.x), (v.y, unit.y), (v.z, unit.z)] {
            assert!(before.raw < 0 || after.raw >= 0);
            assert!(before.raw > 0 || after.raw <= 0);
        }
        let length = (x * x + y * y + z * z).sqrt();
        assert!((fl(unit.x) - x / length).abs() < 1.0e-8);
        assert!((fl(unit.y) - y / length).abs() < 1.0e-8);
        assert!((fl(unit.z) - z / length).abs() < 1.0e-8);
    }
}

#[test]
fn has_unit_length_tells_unit_vectors() {
    assert!(v3(0.0, 1.0, 0.0).has_unit_length());
    assert!(v3(0.6, -0.8, 0.0).has_unit_length());
    assert!(Vec3::new(sc(1.0).add(Scalar::from_raw(4)), sc(0.0), sc(0.0)).has_unit_length());
    assert!(!Vec3::new(sc(1.0).add(Scalar::from_raw(5)), sc(0.0), sc(0.0)).has_unit_length());
    assert!(!v3(0.0, 0.9, 0.0).has_unit_length());
    assert!(!Vec3::zeros().has_unit_length());
}

#[test]
fn lerp_between_two_points() {
    let a = v3(1.0, 1.0, 1.0);
    let b = v3(0.5, 0.0, 0.2);
    assert_eq!(Vec3::lerp(a, b, sc(0.0)), a);
    assert_eq!(Vec3::lerp(a, b, sc(1.0)), b);
    assert_eq!(Vec3::lerp(a, b, sc(0.5)), v3(0.75, 0.5, 0.6));
}

#[test]
fn onb_of_the_z_axis_uses_the_y_axis() {
    let n = v3(0.0, 0.0, 1.0);
    let (tangent, bitangent) = n.extend_to_onb();
    assert_eq!(tangent, v3(-1.0, 0.0, 0.0));
    assert_eq!(bitangent, v3(0.0, -1.0, 0.0));
}

#[test]
fn onb_of_the_y_axis_uses_the_x_axis() {
    let n = v3(0.0, 1.0, 0.0);
    let (tangent, bitangent) = n.extend_to_onb();
    assert_eq!(tangent, v3(0.0, 0.0, -1.0));
    assert_eq!(bitangent, v3(-1.0, 0.0, 0.0));
}

#[test]
fn onb_is_orthonormal() {
    let n = v3(0.3, -0.5, 0.7).normalize();
    let (tangent, bitangent) = n.extend_to_onb();
    assert!(fl(tangent.dot(&n)).abs() < 1.0e-8);
    assert!(fl(bitangent.dot(&n)).abs() < 1.0e-8);
    assert!(fl(tangent.dot(&bitangent)).abs() < 1.0e-8);
    assert!((fl(tangent.norm()) - 1.0).abs() < 1.0e-8);
    assert!((fl(bitangent.norm()) - 1.0).abs() < 1.0e-8);
}

#[test]
fn disk_point_of_two_zeros_is_the_centre() {
    assert_eq!(Vec3::disk_point(sc(0.0), sc(0.0)), Vec3::zeros());
}

#[test]
fn disk_point_is_the_centre_for_two_zero_offsets_only() {
    let tiny = [-2, -1, 0, 1, 2, 1000];
    for a in tiny {
        for b in tiny {
            let d = Vec3::disk_point(Scalar::from_raw(a), Scalar::from_raw(b));
            assert_eq!(d == Vec3::zeros(), a == 0 && b == 0, "offsets {a} and {b}");
        }
    }
    let one = Scalar::from_raw(1);
    assert_eq!(Vec3::disk_point(one, one), Vec3::new(one, one, sc(0.0)));
}

#[test]
fn disk_point_on_the_axes() {
    assert!(close(Vec3::disk_point(sc(0.5), sc(0.0)), v3(0.5, 0.0, 0.0), 1.0e-8));
    assert!(close(Vec3::disk_point(sc(0.0), sc(0.5)), v3(0.0, 0.5, 0.0), 1.0e-8));
    assert!(close(Vec3::disk_point(sc(-0.5), sc(0.0)), v3(-0.5, 0.0, 0.0), 1.0e-8));
    assert!(close(Vec3::disk_point(sc(0.0), sc(-0.5)), v3(0.0, -0.5, 0.0), 1.0e-8));
}

#[test]
fn disk_point_on_the_diagonal() {
    let h = 0.5 * std::f64::consts::FRAC_1_SQRT_2;
    assert!(close(Vec3::disk_point(sc(0.5), sc(0.5)), v3(h, h, 0.0), 1.0e-8));
}

#[test]
fn disk_points_lie_in_the_unit_disk() {
    let mut i = -10;
    while i < 10 {
        let mut j = -10;
        while j < 10 {
            let d = Vec3::disk_point(sc(i as f64 / 10.0), sc(j as f64 / 10.0));
            assert!(fl(d.norm_sq()) <= 1.0 + 1.0e-8);
            assert_eq!(d.z, sc(0.0));
            j += 1;
        }
        i += 1;
    }
}

#[test]
fn lift_to_hemisphere_gives_unit_length() {
    assert_eq!(Vec3::lift_to_hemisphere(v3(0.0, 0.0, 0.0)), v3(0.0, 0.0, 1.0));
    assert_eq!(Vec3::lift_to_hemisphere(v3(0.6, 0.0, 0.0)), v3(0.6, 0.0, 0.8));
    assert_eq!(Vec3::lift_to_hemisphere(v3(1.0, 1.0, 0.0)), v3(1.0, 1.0, 0.0));
}

#[test]
fn lifted_height_is_between_zero_and_one() {
    for (x, y) in [(0.0, 0.0), (0.3, 0.4), (-0.9, 0.9), (5.0, -7.0), (1.0e9, 1.0e9)] {
        let lifted = Vec3::lift_to_hemisphere(v3(x, y, 0.25));
        assert_eq!(lifted.x, sc(x));
        assert_eq!(lifted.y, sc(y));
        assert!(lifted.z.raw >= 0 && lifted.z.raw <= SCALE);
    }
}

#[test]
fn cosine_point_is_the_lifted_disk_point() {
    let u = sc(0.3);
    let v = sc(-0.7);
    assert_eq!(Vec3::cosine_point(u, v), Vec3::lift_to_hemisphere(Vec3::disk_point(u, v)));
    let p = Vec3::cosine_point(u, v);
    assert!((fl(p.norm()) - 1.0).abs() < 1.0e-7);
    assert!(p.z.raw >= 0);
}

#[test]
fn hemisphere_point_at_the_pole_and_the_rim() {
    assert!(close(Vec3::hemisphere_point(sc(0.0), sc(0.0)), v3(1.0, 0.0, 0.0), 1.0e-8));
    assert!(close(Vec3::hemisphere_point(sc(0.0), sc(0.25)), v3(0.0, 1.0, 0.0), 1.0e-8));
    assert!(close(Vec3::hemisphere_point(sc(0.6), sc(0.5)), v3(-0.8, 0.0, 0.6), 1.0e-8));
}

#[test]
fn rand_disk_stays_in_the_disk_and_varies() {
    let first = Vec3::rand_disk();
    let mut varies = false;
    let mut k = 0;
    while k < 200 {
        let d = Vec3::rand_disk();
        assert!(fl(d.norm_sq()) <= 1.0 + 1.0e-8);
        assert_eq!(d.z, sc(0.0));
        if d != first {
            varies = true;
        }
        k += 1;
    }
    assert!(varies);
}

#[test]
fn rand_hemisphere_has_unit_length_and_varies() {
    let first = Vec3::rand_hemisphere();
    let mut varies = false;
    let mut k = 0;
    while k < 200 {
        let d = Vec3::rand_hemisphere();
        assert!((fl(d.norm()) - 1.0).abs() < 1.0e-7);
        assert!(d.z.raw >= 0 && d.z.raw < SCALE);
        if d != first {
            varies = true;
        }
        k += 1;
    }
    assert!(varies);
}

#[test]
fn rand_hemisphere_cosine_has_unit_length_and_varies() {
    let first = Vec3::rand_hemisphere_cosine();
    let mut varies = false;
    let mut sum_z = 0.0;
    let mut k = 0;
    while k < 2000 {
        let d = Vec3::rand_hemisphere_cosine();
        assert!((fl(d.norm()) - 1.0).abs() < 1.0e-7);
        assert!(d.z.raw >= 0);
        sum_z += fl(d.z);
        if d != first {
            varies = true;
        }
        k += 1;
    }
    assert!(varies);
    // The mean height of a cosine-weighted direction is 2/3.
    assert!((sum_z / 2000.0 - 2.0 / 3.0).abs() < 0.05);
}

#[test]
fn ray_new_and_at() {
    let ray = Ray::new(v3(1.0, 2.0, 3.0), v3(0.0, 0.0, 2.0));
    assert_eq!(ray.origin, v3(1.0, 2.0, 3.0));
    assert_eq!(ray.direction, v3(0.0, 0.0, 2.0));
    assert_eq!(ray.t_min, sc(0.0001));
    assert_eq!(ray.t_max, Scalar::from_raw(i64::MAX));
    assert_eq!(ray.at(sc(1.5)), v3(1.0, 2.0, 6.0));
    assert_eq!(ray.at(sc(0.0)), ray.origin);
}
