use path_tracer::math::Vec3;
use path_tracer::scalar::{Scalar, SCALE};
use path_tracer::scene::Camera;

fn sc(x: f64) -> Scalar {
    Scalar::from_raw((x * SCALE as f64).round() as i64)
}

fn fl(s: Scalar) -> f64 {
    s.raw as f64 / SCALE as f64
}

fn v3(x: f64, y: f64, z: f64) -> Vec3 {
    Vec3::new(sc(x), sc(y), sc(z))
}

fn close(a: Vec3, b: Vec3, tolerance: f64) -> bool {
    (fl(a.x) - fl(b.x)).abs() <= tolerance
        && (fl(a.y) - fl(b.y)).abs() <= tolerance
        && (fl(a.z) - fl(b.z)).abs() <= tolerance
}

fn looking_down_z() -> Camera {
    Camera::new(v3(0.0, 0.0, 0.0), v3(0.0, 0.0, 1.0), sc(60.0), sc(1.0), sc(1.0)).unwrap()
}

#[test]
fn camera_keeps_what_it_was_given() {
    let camera = looking_down_z();
    assert_eq!(camera.position, v3(0.0, 0.0, 0.0));
    assert_eq!(camera.forward, v3(0.0, 0.0, 1.0));
    assert_eq!(camera.fov, sc(60.0));
    assert_eq!(camera.focal_length, sc(1.0));
}

#[test]
fn camera_image_plane_for_sixty_degrees() {
    let camera = looking_down_z();
    let h = (30.0f64).to_radians().tan();
    assert!(close(camera.horizontal, v3(2.0 * h, 0.0, 0.0), 1.0e-7));
    assert!(close(camera.vertical, v3(0.0, -2.0 * h, 0.0), 1.0e-7));
    assert!(close(camera.lower_left_corner, v3(-h, h, 1.0), 1.0e-7));
}

#[test]
fn camera_image_plane_scales_with_aspect_and_focal_length() {
    let camera =
        Camera::new(v3(1.0, 2.0, 3.0), v3(1.0, 2.0, 4.0), sc(90.0), sc(2.0), sc(1.5)).unwrap();
    assert!(close(camera.horizontal, v3(6.0, 0.0, 0.0), 1.0e-6));
    assert!(close(camera.vertical, v3(0.0, -4.0, 0.0), 1.0e-6));
    assert!(close(camera.lower_left_corner, v3(-2.0, 4.0, 5.0), 1.0e-6));
}

#[test]
fn camera_ray_through_the_middle_looks_forward() {
    let camera = looking_down_z();
    let ray = camera.get_ray(sc(0.5), sc(0.5));
    assert_eq!(ray.origin, camera.position);
    assert!(close(ray.direction, v3(0.0, 0.0, 1.0), 1.0e-7));
    assert_eq!(ray.t_min, sc(0.0001));
    assert_eq!(ray.t_max, Scalar::from_raw(i64::MAX));
}

#[test]
fn camera_rays_through_the_corners() {
    let camera = looking_down_z();
    let h = (30.0f64).to_radians().tan();
    assert!(close(camera.get_ray(sc(0.0), sc(0.0)).direction, v3(-h, h, 1.0), 1.0e-7));
    assert!(close(camera.get_ray(sc(1.0), sc(0.0)).direction, v3(h, h, 1.0), 1.0e-7));
    assert!(close(camera.get_ray(sc(0.0), sc(1.0)).direction, v3(-h, -h, 1.0), 1.0e-7));
    assert!(close(camera.get_ray(sc(1.0), sc(1.0)).direction, v3(h, -h, 1.0), 1.0e-7));
}

#[test]
fn camera_ray_direction_is_the_stated_formula() {
    let camera =
        Camera::new(v3(1.0, 2.0, 3.0), v3(-1.0, 0.5, 7.0), sc(45.0), sc(1.5), sc(1.25)).unwrap();
    let (s, t) = (sc(0.3), sc(0.8));
    let expected = camera
        .lower_left_corner
        .add(camera.horizontal.scale(s))
        .add(camera.vertical.scale(t))
        .sub(camera.position);
    assert_eq!(camera.get_ray(s, t).direction, expected);
    assert_eq!(camera.get_ray(s, t).origin, v3(1.0, 2.0, 3.0));
}

#[test]
fn camera_basis_is_orthonormal() {
    let camera =
        Camera::new(v3(1.0, 2.0, 3.0), v3(-1.0, 0.5, 7.0), sc(45.0), sc(1.0), sc(1.0)).unwrap();
    assert!((fl(camera.forward.norm()) - 1.0).abs() < 1.0e-8);
    assert!(fl(camera.forward.dot(&camera.horizontal)).abs() < 1.0e-7);
    assert!(fl(camera.forward.dot(&camera.vertical)).abs() < 1.0e-7);
    assert!(fl(camera.horizontal.dot(&camera.vertical)).abs() < 1.0e-7);
}

#[test]
fn camera_cannot_look_at_its_own_position() {
    let here = v3(1.0, 2.0, 3.0);
    assert!(Camera::new(here, here, sc(60.0), sc(1.0), sc(1.0)).is_none());
}

#[test]
fn camera_cannot_look_straight_up_or_down() {
    let here = v3(1.0, 2.0, 3.0);
    assert!(Camera::new(here, v3(1.0, 5.0, 3.0), sc(60.0), sc(1.0), sc(1.0)).is_none());
    assert!(Camera::new(here, v3(1.0, -5.0, 3.0), sc(60.0), sc(1.0), sc(1.0)).is_none());
    assert!(Camera::new(here, v3(1.0, 5.0, 3.1), sc(60.0), sc(1.0), sc(1.0)).is_some());
}

#[test]
fn camera_looking_at_a_point_close_by_has_a_unit_forward() {
    let camera =
        Camera::new(v3(0.0, 0.0, 0.0), v3(0.00004, 0.0, 0.0), sc(60.0), sc(1.0), sc(1.0)).unwrap();
    assert_eq!(camera.forward, v3(1.0, 0.0, 0.0));
    let near = Camera::new(
        v3(5.0, 5.0, 5.0),
        Vec3::new(sc(5.0).add(Scalar::from_raw(3)), sc(5.0), sc(5.0).add(Scalar::from_raw(-4))),
        sc(60.0),
        sc(1.0),
        sc(1.0),
    )
    .unwrap();
    assert_eq!(near.forward, v3(0.6, 0.0, -0.8));
    assert!(near.forward.has_unit_length());
}

#[test]
fn camera_basis_has_unit_length_wherever_it_looks() {
    let targets = [
        v3(0.0, 0.0, 1.0),
        v3(3.0, -2.0, 0.5),
        v3(-0.001, 0.4, 0.002),
        v3(0.00004, 0.00003, 0.0),
        v3(1.0e-9, 1.0, 0.0),
        v3(-700.0, 650.0, 12000.0),
    ];
    for target in targets {
        let camera = Camera::new(v3(0.0, 0.0, 0.0), target, sc(60.0), sc(1.0), sc(1.0)).unwrap();
        let forward = camera.forward;
        let world_up = v3(0.0, 1.0, 0.0);
        let right = forward.neg().cross(&world_up).normalize();
        let up = right.cross(&forward);
        assert!(forward.has_unit_length());
        assert!(right.has_unit_length());
        let length = up.norm().raw;
        assert!(SCALE - 13 <= length && length <= SCALE + 13, "up has length {length}");
        assert!(right.dot(&forward).raw.abs() <= 3);
        assert_eq!(right.y.raw, 0);
        assert!(fl(up.dot(&forward)).abs() < 1.0e-7);
        assert!(fl(up.dot(&right)).abs() < 1.0e-7);
    }
}
