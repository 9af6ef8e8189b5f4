use path_tracer::math::{Ray, Vec3};
use path_tracer::scalar::{Scalar, SCALE};
use path_tracer::scene::{Emissive, HitRecord, Lambertian, Material, MaterialKind};

fn sc(x: f64) -> Scalar {
    Scalar::from_raw((x * SCALE as f64).round() as i64)
}

fn fl(s: Scalar) -> f64 {
    s.raw as f64 / SCALE as f64
}

fn v3(x: f64, y: f64, z: f64) -> Vec3 {
    Vec3::new(sc(x), sc(y), sc(z))
}

fn a_hit() -> (Ray, HitRecord) {
    let ray = Ray::new(v3(0.0, 0.0, 0.0), v3(0.0, 0.0, 1.0));
    let hit = HitRecord {
        t: sc(4.0),
        point: v3(0.0, 0.0, 4.0),
        normal: v3(0.0, 0.0, -1.0),
        material: 0,
    };
    (ray, hit)
}

#[test]
fn lambertian_scatters_from_the_hit_point_with_its_albedo() {
    let (ray, hit) = a_hit();
    let material = Lambertian { albedo: v3(0.9, 0.5, 0.1) };
    let (out, attenuation) = material.scatter_with(&ray, &hit, sc(0.3), sc(-0.4)).unwrap();
    assert_eq!(out.origin, hit.point);
    assert_eq!(attenuation, v3(0.9, 0.5, 0.1));
    assert_eq!(out.t_min, sc(0.0001));
    assert_eq!(out.t_max, Scalar::from_raw(i64::MAX));
}

#[test]
fn lambertian_direction_is_the_sample_in_the_frame_of_the_normal() {
    let (ray, hit) = a_hit();
    let material = Lambertian { albedo: v3(1.0, 1.0, 1.0) };
    let (u, v) = (sc(0.3), sc(-0.4));
    let (out, _) = material.scatter_with(&ray, &hit, u, v).unwrap();
    let local = Vec3::cosine_point(u, v);
    let (tangent, bitangent) = hit.normal.extend_to_onb();
    let expected =
        tangent.scale(local.x).add(bitangent.scale(local.y)).add(hit.normal.scale(local.z));
    assert_eq!(out.direction, expected);
    assert!((fl(out.direction.norm()) - 1.0).abs() < 1.0e-7);
    assert!(fl(out.direction.dot(&hit.normal)) >= 0.0);
}

#[test]
fn lambertian_with_zero_offsets_scatters_along_the_normal() {
    let (ray, hit) = a_hit();
    let material = Lambertian { albedo: v3(1.0, 1.0, 1.0) };
    let (out, _) = material.scatter_with(&ray, &hit, sc(0.0), sc(0.0)).unwrap();
    assert_eq!(out.direction, hit.normal);
}

#[test]
fn lambertian_gives_off_no_light() {
    let (ray, hit) = a_hit();
    let material = Lambertian { albedo: v3(0.9, 0.5, 0.1) };
    assert_eq!(material.emitted(&ray, &hit), Vec3::zeros());
}

#[test]
fn lambertian_random_scatter_stays_above_the_surface() {
    let (ray, hit) = a_hit();
    let material = Lambertian { albedo: v3(0.9, 0.5, 0.1) };
    let first = material.scatter(&ray, &hit).unwrap().0.direction;
    let mut varies = false;
    let mut k = 0;
    while k < 200 {
        let (out, attenuation) = material.scatter(&ray, &hit).unwrap();
        assert_eq!(out.origin, hit.point);
        assert_eq!(attenuation, v3(0.9, 0.5, 0.1));
        assert!(fl(out.direction.dot(&hit.normal)) >= -1.0e-8);
        if out.direction != first {
            varies = true;
        }
        k += 1;
    }
    assert!(varies);
}

#[test]
fn emissive_ends_the_path_and_gives_off_its_colour() {
    let (ray, hit) = a_hit();
    let material = Emissive { emitted_color: v3(4.0, 3.0, 2.0) };
    assert!(material.scatter(&ray, &hit).is_none());
    assert!(material.scatter_with(&ray, &hit, sc(0.5), sc(0.5)).is_none());
    assert_eq!(material.emitted(&ray, &hit), v3(4.0, 3.0, 2.0));
}

#[test]
fn material_kind_passes_on_to_its_variant() {
    let (ray, hit) = a_hit();
    let diffuse = Lambertian { albedo: v3(0.9, 0.5, 0.1) };
    let light = Emissive { emitted_color: v3(4.0, 3.0, 2.0) };
    assert_eq!(
        MaterialKind::Lambertian(diffuse).scatter_with(&ray, &hit, sc(0.1), sc(0.2)),
        diffuse.scatter_with(&ray, &hit, sc(0.1), sc(0.2))
    );
    assert_eq!(MaterialKind::Lambertian(diffuse).emitted(&ray, &hit), Vec3::zeros());
    assert!(MaterialKind::Lambertian(diffuse).scatter(&ray, &hit).is_some());
    assert!(MaterialKind::Emissive(light).scatter(&ray, &hit).is_none());
    assert!(MaterialKind::Emissive(light).scatter_with(&ray, &hit, sc(0.1), sc(0.2)).is_none());
    assert_eq!(MaterialKind::Emissive(light).emitted(&ray, &hit), v3(4.0, 3.0, 2.0));
}
