use raytracer::aabb::{Aabb, PAD_DELTA, slab_of};
use raytracer::interval::Interval;
use raytracer::ray::Ray;
use raytracer::scalar::{INFINITY, NEG_INFINITY, UNIT};
use raytracer::vec3::Vec3;

fn unit_cube() -> Aabb {
    Aabb::new_from_point(Vec3::zero(), Vec3::new(UNIT, UNIT, UNIT))
}

#[test]
fn flat_box_is_padded_on_its_flat_axis() {
    let b = Aabb::new_from_point(Vec3::zero(), Vec3::new(UNIT, UNIT, 0));
    assert_eq!((b.x.tmin, b.x.tmax), (0, UNIT));
    assert_eq!((b.y.tmin, b.y.tmax), (0, UNIT));
    assert_eq!((b.z.tmin, b.z.tmax), (-5, 5));
    assert!(b.x.size() >= PAD_DELTA);
    assert!(b.y.size() >= PAD_DELTA);
    assert!(b.z.size() >= PAD_DELTA);
}

#[test]
fn box_from_points_orders_the_corners() {
    let b = Aabb::new_from_point(Vec3::new(5 * UNIT, -UNIT, 0), Vec3::new(-UNIT, 2 * UNIT, UNIT));
    assert_eq!((b.x.tmin, b.x.tmax), (-UNIT, 5 * UNIT));
    assert_eq!((b.y.tmin, b.y.tmax), (-UNIT, 2 * UNIT));
    assert_eq!((b.z.tmin, b.z.tmax), (0, UNIT));
}

#[test]
fn narrow_axis_just_under_the_minimum_is_padded() {
    let b = Aabb::new(Interval::new(0, 9), Interval::new(0, 10), Interval::new(3, 3));
    assert_eq!((b.x.tmin, b.x.tmax), (-5, 14));
    assert_eq!((b.y.tmin, b.y.tmax), (0, 10));
    assert_eq!((b.z.tmin, b.z.tmax), (-2, 8));
}

#[test]
fn empty_box_stays_empty_under_padding() {
    let e = Aabb::default();
    assert_eq!((e.x.tmin, e.x.tmax), (INFINITY, NEG_INFINITY));
    let padded = Aabb::new(e.x, e.y, e.z);
    assert_eq!(padded, e);
    let mut again = e;
    assert_eq!(again.pad_to_minimums(), e);
}

#[test]
fn union_of_boxes_holds_both() {
    let a = unit_cube();
    let b = Aabb::new_from_point(Vec3::new(2 * UNIT, -UNIT, 0), Vec3::new(3 * UNIT, 0, UNIT / 2));
    let u = Aabb::new_from_bbox(a, b);
    assert_eq!((u.x.tmin, u.x.tmax), (0, 3 * UNIT));
    assert_eq!((u.y.tmin, u.y.tmax), (-UNIT, UNIT));
    assert_eq!((u.z.tmin, u.z.tmax), (0, UNIT));
    assert_eq!(Aabb::new_from_bbox(Aabb::default(), a), a);
    assert_eq!(Aabb::new_from_bbox(a, Aabb::default()), a);
}

#[test]
fn axis_interval_picks_the_axis() {
    let b = Aabb::new_from_point(Vec3::new(1, 2, 3), Vec3::new(101, 202, 303));
    assert_eq!(*b.axis_interval(0), Interval::new(1, 101));
    assert_eq!(*b.axis_interval(1), Interval::new(2, 202));
    assert_eq!(*b.axis_interval(2), Interval::new(3, 303));
}

#[test]
fn longest_axis_breaks_ties_towards_z() {
    assert_eq!(unit_cube().longest_axis(), 2);
    let wide = Aabb::new_from_point(Vec3::zero(), Vec3::new(3 * UNIT, UNIT, 2 * UNIT));
    assert_eq!(wide.longest_axis(), 0);
    let tall = Aabb::new_from_point(Vec3::zero(), Vec3::new(UNIT, 3 * UNIT, 2 * UNIT));
    assert_eq!(tall.longest_axis(), 1);
    let deep = Aabb::new_from_point(Vec3::zero(), Vec3::new(UNIT, 2 * UNIT, 3 * UNIT));
    assert_eq!(deep.longest_axis(), 2);
    let x_and_z = Aabb::new_from_point(Vec3::zero(), Vec3::new(3 * UNIT, UNIT, 3 * UNIT));
    assert_eq!(x_and_z.longest_axis(), 2);
    let x_and_y = Aabb::new_from_point(Vec3::zero(), Vec3::new(3 * UNIT, 3 * UNIT, UNIT));
    assert_eq!(x_and_y.longest_axis(), 1);
}

#[test]
fn translated_box_moves_with_the_offset() {
    let b = unit_cube() + Vec3::new(UNIT, -UNIT, 0);
    assert_eq!((b.x.tmin, b.x.tmax), (UNIT, 2 * UNIT));
    assert_eq!((b.y.tmin, b.y.tmax), (-UNIT, 0));
    assert_eq!((b.z.tmin, b.z.tmax), (0, UNIT));
    assert_eq!(Aabb::default() + Vec3::new(UNIT, UNIT, UNIT), Aabb::default());
}

#[test]
fn slab_is_rounded_outwards() {
    // from 0 to 1 on the axis, ray from -1 moving 3 per unit of parameter
    let s = slab_of(Interval::new(0, UNIT), -UNIT, 3 * UNIT);
    assert_eq!((s.tmin, s.tmax), (33_333, 66_667));
    // moving the other way from 2
    let back = slab_of(Interval::new(0, UNIT), 2 * UNIT, -3 * UNIT);
    assert_eq!((back.tmin, back.tmax), (33_333, 66_667));
}

#[test]
fn slab_of_a_ray_that_does_not_move_is_all_or_nothing() {
    let inside = slab_of(Interval::new(0, UNIT), UNIT / 2, 0);
    assert_eq!(inside, Interval::universe());
    let edge = slab_of(Interval::new(0, UNIT), UNIT, 0);
    assert_eq!(edge, Interval::universe());
    let outside = slab_of(Interval::new(0, UNIT), UNIT + 1, 0);
    assert_eq!(outside, Interval::default());
}

#[test]
fn ray_through_the_box_hits() {
    let r = Ray::new(Vec3::new(-UNIT, UNIT / 2, UNIT / 2), Vec3::new(UNIT, 0, 0), 0);
    assert!(unit_cube().hit(&r, Interval::new(0, INFINITY)));
    // the box lies between the parameters 1 and 2
    assert!(unit_cube().hit(&r, Interval::new(0, 3 * UNIT / 2)));
    assert!(!unit_cube().hit(&r, Interval::new(0, UNIT)));
    assert!(!unit_cube().hit(&r, Interval::new(2 * UNIT, INFINITY)));
}

#[test]
fn ray_away_from_the_box_misses() {
    let r = Ray::new(Vec3::new(-UNIT, UNIT / 2, UNIT / 2), Vec3::new(-UNIT, 0, 0), 0);
    assert!(!unit_cube().hit(&r, Interval::new(0, INFINITY)));
    assert!(unit_cube().hit(&r, Interval::new(NEG_INFINITY, INFINITY)));
}

#[test]
fn one_failing_axis_decides_the_miss() {
    // x and y pass for every parameter, z never does
    let r = Ray::new(Vec3::new(UNIT / 2, UNIT / 2, 5 * UNIT), Vec3::new(0, 0, 0), 0);
    assert!(!unit_cube().hit(&r, Interval::new(0, INFINITY)));
    // the same with x failing, whatever y and z say
    let r = Ray::new(Vec3::new(5 * UNIT, UNIT / 2, UNIT / 2), Vec3::new(0, UNIT, UNIT), 0);
    assert!(!unit_cube().hit(&r, Interval::new(NEG_INFINITY, INFINITY)));
    // and with y failing
    let r = Ray::new(Vec3::new(UNIT / 2, -UNIT, UNIT / 2), Vec3::new(UNIT, 0, UNIT), 0);
    assert!(!unit_cube().hit(&r, Interval::new(NEG_INFINITY, INFINITY)));
}

#[test]
fn slab_test_gives_the_same_answer_on_every_axis_order() {
    // the same ray and box with the axes renamed: x→y→z→x
    let boxes = [
        Aabb::new_from_point(Vec3::new(0, 0, 0), Vec3::new(UNIT, 2 * UNIT, 3 * UNIT)),
        Aabb::new_from_point(Vec3::new(0, 0, 0), Vec3::new(3 * UNIT, UNIT, 2 * UNIT)),
        Aabb::new_from_point(Vec3::new(0, 0, 0), Vec3::new(2 * UNIT, 3 * UNIT, UNIT)),
    ];
    let hits = [
        Ray::new(Vec3::new(-UNIT, -UNIT, -UNIT), Vec3::new(UNIT, 2 * UNIT, 3 * UNIT), 0),
        Ray::new(Vec3::new(-UNIT, -UNIT, -UNIT), Vec3::new(3 * UNIT, UNIT, 2 * UNIT), 0),
        Ray::new(Vec3::new(-UNIT, -UNIT, -UNIT), Vec3::new(2 * UNIT, 3 * UNIT, UNIT), 0),
    ];
    let misses = [
        Ray::new(Vec3::new(-UNIT, -UNIT, -UNIT), Vec3::new(UNIT, 2 * UNIT, -UNIT), 0),
        Ray::new(Vec3::new(-UNIT, -UNIT, -UNIT), Vec3::new(-UNIT, UNIT, 2 * UNIT), 0),
        Ray::new(Vec3::new(-UNIT, -UNIT, -UNIT), Vec3::new(2 * UNIT, -UNIT, UNIT), 0),
    ];
    for k in 0..3 {
        assert!(boxes[k].hit(&hits[k], Interval::new(0, INFINITY)));
        assert!(!boxes[k].hit(&misses[k], Interval::new(0, INFINITY)));
    }
}

#[test]
fn empty_interval_of_parameters_never_hits() {
    let r = Ray::new(Vec3::new(-UNIT, UNIT / 2, UNIT / 2), Vec3::new(UNIT, 0, 0), 0);
    assert!(!unit_cube().hit(&r, Interval::default()));
    assert!(!unit_cube().hit(&r, Interval::new(UNIT, UNIT)));
}

#[test]
fn offset_plus_box_is_box_plus_offset() {
    let offset = Vec3::new(UNIT, -UNIT, 7);
    assert_eq!(offset + unit_cube(), unit_cube() + offset);
    let all = Aabb::universe();
    assert_eq!((all.x.tmin, all.x.tmax), (NEG_INFINITY, INFINITY));
    assert_eq!(all + offset, all);
    let r = Ray::new(Vec3::new(5, 6, 7), Vec3::new(1, 0, 0), 0);
    assert!(all.hit(&r, Interval::new(0, INFINITY)));
}
