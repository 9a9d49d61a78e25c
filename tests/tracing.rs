use image::RgbImage;
use raymarch::arith::UNIT;
use raymarch::canvas::Canvas;
use raymarch::linear::Vector;
use raymarch::primitives::{Ray, Sphere};
use raymarch::scene::{to_channel, Camera, Scene, FAR, HIT_THRESHOLD};

fn v(x: i64, y: i64, z: i64) -> Vector<i64> {
    Vector::new(x, y, z)
}

fn sphere_scene(center_z: i64) -> Scene {
    Scene::new(
        vec![Sphere::new(10, v(0, 0, center_z * UNIT), 1)],
        vec![v(0, -10 * UNIT, 0)],
        Camera::new([64, 64], v(0, 0, 0)),
    )
}

#[test]
fn nearest_is_minimum_with_owner() {
    let scene = Scene::new(
        vec![Sphere::new(10, v(0, 0, 20 * UNIT), 1), Sphere::new(5, v(10 * UNIT, 0, 20 * UNIT), 2)],
        vec![],
        Camera::new([1, 1], v(0, 0, 0)),
    );
    assert_eq!(scene.distance_to_closest(&v(5 * UNIT, 0, 20 * UNIT)), (-5 * UNIT, 1));
    assert_eq!(scene.distance_to_closest(&v(20 * UNIT, 0, 20 * UNIT)), (5 * UNIT, 2));
    assert_eq!(scene.distance_to_closest_offset(&v(5 * UNIT, 0, 20 * UNIT), 1), (0, 2));
    assert_eq!(scene.distance_to_closest_offset(&v(5 * UNIT, 0, 20 * UNIT), 2), (-5 * UNIT, 1));
}

#[test]
fn nearest_tie_goes_to_first() {
    let scene = Scene::new(
        vec![Sphere::new(1, v(0, 0, 5 * UNIT), 7), Sphere::new(1, v(0, 0, -5 * UNIT), 8)],
        vec![],
        Camera::new([1, 1], v(0, 0, 0)),
    );
    assert_eq!(scene.distance_to_closest(&v(0, 0, 0)), (4 * UNIT, 7));
}

#[test]
fn nearest_of_empty_scene_is_far() {
    let scene = Scene::new(vec![], vec![], Camera::new([1, 1], v(0, 0, 0)));
    assert_eq!(scene.distance_to_closest(&v(1, 2, 3)), (FAR, 0));
    let one = sphere_scene(20);
    assert_eq!(one.distance_to_closest_offset(&v(0, 0, 0), 1), (FAR, 0));
}

#[test]
fn march_straight_at_center_hits() {
    let scene = sphere_scene(20);
    let hit = scene.march(&Ray::new(v(0, 0, UNIT), v(0, 0, 0))).unwrap();
    assert_eq!(hit.position, v(0, 0, 10 * UNIT));
    assert_eq!(hit.owner, 1);
    assert_eq!(hit.travelled, 10 * UNIT);
}

#[test]
fn march_toward_center_from_off_axis_hits() {
    let scene = sphere_scene(20);
    let origin = v(3 * UNIT, 4 * UNIT, -5 * UNIT);
    let to_center = v(0, 0, 20 * UNIT).sub(origin);
    let expected = to_center.len() - 10 * UNIT;
    let hit = scene.march(&Ray::new(to_center.normalize(), origin)).unwrap();
    assert_eq!(hit.owner, 1);
    assert!((hit.travelled - expected).abs() < HIT_THRESHOLD);
}

#[test]
fn march_away_from_geometry_misses() {
    let scene = sphere_scene(20);
    let ray = Ray::new(v(0, 0, -UNIT), v(0, 0, 0));
    assert!(scene.march(&ray).is_none());
    assert_eq!(scene.ray_march(&ray), v(0, 0, 0));
}

#[test]
fn march_in_empty_scene_misses() {
    let scene = Scene::new(vec![], vec![v(0, 0, 0)], Camera::new([1, 1], v(0, 0, 0)));
    assert!(scene.march(&Ray::new(v(0, 0, UNIT), v(0, 0, 0))).is_none());
}

#[test]
fn normal_by_finite_differences() {
    let scene = sphere_scene(20);
    assert_eq!(scene.calculate_normal(v(0, 0, 10 * UNIT)), v(0, 0, UNIT));
    assert_eq!(scene.calculate_normal(v(0, 10 * UNIT, 20 * UNIT)), v(0, -UNIT, 0));
}

#[test]
fn normal_is_accurate_off_axis() {
    let scene = Scene::new(
        vec![Sphere::new(10, v(0, 0, 0), 1)],
        vec![],
        Camera::new([1, 1], v(0, 0, 0)),
    );
    let n = scene.calculate_normal(v(7_071_068, 7_071_068, 0));
    assert_eq!(n, v(-707_106, -707_106, 0));
    assert!((n.len() - UNIT).abs() <= 4);
}

#[test]
fn shadow_of_own_group_is_ignored() {
    let scene = sphere_scene(20);
    let point = v(0, 0, 10 * UNIT);
    let to_point = point.sub(v(0, 0, 40 * UNIT));
    assert_eq!(scene.cast_light(point, to_point.normalize(), to_point.len(), 1), UNIT);
}

#[test]
fn shadow_blocked_by_other_group() {
    let scene = Scene::new(
        vec![Sphere::new(1, v(0, 0, 50 * UNIT), 2)],
        vec![],
        Camera::new([1, 1], v(0, 0, 0)),
    );
    let to_point = v(0, 0, 0).sub(v(0, 0, 100 * UNIT));
    assert_eq!(scene.cast_light(v(0, 0, 0), to_point.normalize(), to_point.len(), 1), 0);
}

fn visibility_with_occluder_at(offset: i64) -> i64 {
    let scene = Scene::new(
        vec![Sphere::new(1, v(offset, 0, 50 * UNIT), 2)],
        vec![],
        Camera::new([1, 1], v(0, 0, 0)),
    );
    let to_point = v(0, 0, 0).sub(v(0, 0, 100 * UNIT));
    scene.cast_light(v(0, 0, 0), to_point.normalize(), to_point.len(), 1)
}

#[test]
fn soft_shadow_near_an_occluder() {
    assert_eq!(visibility_with_occluder_at(30 * UNIT), UNIT);
    assert_eq!(visibility_with_occluder_at(1_500_000), 511_525);
}

#[test]
fn soft_shadow_decreases_as_occluder_approaches() {
    let offsets = [30 * UNIT, 2 * UNIT, 1_900_000, 1_500_000, 1_200_000, 1_100_000, UNIT, 0];
    let mut last = UNIT;
    for o in offsets {
        let vis = visibility_with_occluder_at(o);
        assert!(vis <= last);
        last = vis;
    }
    assert_eq!(last, 0);
}

#[test]
fn light_behind_surface_gives_nothing() {
    let scene = Scene::new(
        vec![Sphere::new(10, v(0, 0, 20 * UNIT), 1)],
        vec![v(0, 0, 40 * UNIT)],
        Camera::new([1, 1], v(0, 0, 0)),
    );
    assert_eq!(scene.light_process(v(0, 0, 10 * UNIT), 1), (0, 0));
}

#[test]
fn light_takes_strongest() {
    let scene = sphere_scene(20);
    assert_eq!(scene.light_process(v(0, 0, 10 * UNIT), 1), (UNIT, 707_106));
}

#[test]
fn channel_scales_and_clamps() {
    assert_eq!(to_channel(-5), 0);
    assert_eq!(to_channel(0), 0);
    assert_eq!(to_channel(UNIT / 2), 127);
    assert_eq!(to_channel(UNIT), 255);
    assert_eq!(to_channel(3 * UNIT), 255);
}

#[test]
fn center_pixel_is_red() {
    let scene = sphere_scene(20);
    assert!(scene.is_valid());
    let (r, g, b) = scene.pixel(32, 32);
    assert!(r > 0);
    assert_eq!((r, g, b), (180, 0, 0));
}

#[test]
fn render_fills_canvas() {
    let scene = sphere_scene(20);
    let mut canvas = Canvas { image: RgbImage::new(64, 64) };
    scene.render(&mut canvas);
    let p = canvas.image.get_pixel(32, 32);
    assert!(p.0[0] > 0);
    assert_eq!((p.0[1], p.0[2]), (0, 0));
}

#[test]
fn away_camera_sees_background() {
    let scene = sphere_scene(-20);
    for y in 0..64 {
        for x in 0..64 {
            assert_eq!(scene.pixel(x, y), (0, 0, 0));
        }
    }
    let mut canvas = Canvas { image: RgbImage::new(64, 64) };
    scene.render(&mut canvas);
    assert!(canvas.image.pixels().all(|p| p.0 == [0, 0, 0]));
}

#[test]
fn invalid_scene_is_reported() {
    let far = Scene::new(
        vec![Sphere::new(1, v(0, 0, i64::MAX), 1)],
        vec![],
        Camera::new([1, 1], v(0, 0, 0)),
    );
    assert!(!far.is_valid());
    let huge = Scene::new(
        vec![Sphere::new(u32::MAX, v(0, 0, 0), 1)],
        vec![],
        Camera::new([1, 1], v(0, 0, 0)),
    );
    assert!(!huge.is_valid());
}

#[test]
fn zero_resolution_renders_background() {
    let scene = Scene::new(
        vec![Sphere::new(10, v(0, 0, 20 * UNIT), 1)],
        vec![v(0, -10 * UNIT, 0)],
        Camera::new([0, 4], v(0, 0, 0)),
    );
    assert!(scene.is_valid());
    assert_eq!(scene.pixel(0, 0), (0, 0, 0));
    let mut canvas = Canvas { image: RgbImage::new(4, 4) };
    scene.render(&mut canvas);
    assert!(canvas.image.pixels().all(|p| p.0 == [0, 0, 0]));
}
