use raytracer::hitable::{HitRecord, Shape, World};
use raytracer::interval::Interval;
use raytracer::quad::{create_box, planar, Quad, side_of};
use raytracer::ray::Ray;
use raytracer::sphere::{Sphere, still_box_of};
use raytracer::scalar::{arc_cosine, arc_tangent, INFINITY, NEG_INFINITY, UNIT};
use raytracer::vec3::Vec3;

const U: i64 = UNIT;

fn forward() -> Interval {
    Interval::new(100, INFINITY)
}

#[test]
fn sphere_head_on_hit_is_at_distance_minus_radius() {
    let cases: [(i64, i64); 5] = [(2 * U, 5 * U), (U, 2 * U), (U / 2, U), (3, 10), (1000 * U, 2500 * U)];
    for (r, d) in cases {
        let s = Sphere::new(Vec3::zero(), r, 7);
        let ray = Ray::new(Vec3::new(0, 0, d), Vec3::new(0, 0, -U), 0);
        let mut rec = HitRecord::default();
        assert!(s.hit(&ray, &Interval::new(0, INFINITY), &mut rec), "r = {}, d = {}", r, d);
        assert_eq!(rec.t, d - r);
        assert_eq!(rec.point, Vec3::new(0, 0, r));
        assert_eq!(rec.normal, Vec3::new(0, 0, U));
        assert!(rec.front_face);
        assert_eq!(rec.material, 7);
    }
}

#[test]
fn sphere_head_on_hit_along_every_axis() {
    let s = Sphere::new(Vec3::zero(), 2 * U, 0);
    let rays = [
        (Vec3::new(5 * U, 0, 0), Vec3::new(-U, 0, 0), Vec3::new(U, 0, 0)),
        (Vec3::new(-5 * U, 0, 0), Vec3::new(U, 0, 0), Vec3::new(-U, 0, 0)),
        (Vec3::new(0, 5 * U, 0), Vec3::new(0, -U, 0), Vec3::new(0, U, 0)),
        (Vec3::new(0, -5 * U, 0), Vec3::new(0, U, 0), Vec3::new(0, -U, 0)),
        (Vec3::new(0, 0, -5 * U), Vec3::new(0, 0, U), Vec3::new(0, 0, -U)),
    ];
    for (origin, direction, normal) in rays {
        let mut rec = HitRecord::default();
        assert!(s.hit(&Ray::new(origin, direction, 0), &forward(), &mut rec));
        assert_eq!(rec.t, 3 * U);
        assert_eq!(rec.normal, normal);
        assert!(rec.front_face);
    }
}

#[test]
fn sphere_hit_with_a_long_direction_scales_the_parameter() {
    let s = Sphere::new(Vec3::zero(), 2 * U, 0);
    let ray = Ray::new(Vec3::new(0, 0, 5 * U), Vec3::new(0, 0, -2 * U), 0);
    let mut rec = HitRecord::default();
    assert!(s.hit(&ray, &forward(), &mut rec));
    assert_eq!(rec.t, 3 * U / 2);
    assert_eq!(rec.point, Vec3::new(0, 0, 2 * U));
}

#[test]
fn sphere_hit_from_inside_takes_the_far_root() {
    let s = Sphere::new(Vec3::zero(), 2 * U, 0);
    let ray = Ray::new(Vec3::zero(), Vec3::new(0, 0, -U), 0);
    let mut rec = HitRecord::default();
    assert!(s.hit(&ray, &forward(), &mut rec));
    assert_eq!(rec.t, 2 * U);
    assert_eq!(rec.point, Vec3::new(0, 0, -2 * U));
    assert!(!rec.front_face);
    assert_eq!(rec.normal, Vec3::new(0, 0, U));
}

#[test]
fn sphere_miss_leaves_the_record_alone() {
    let s = Sphere::new(Vec3::zero(), 2 * U, 0);
    let before = HitRecord::new(11, Vec3::new(1, 2, 3), Vec3::new(4, 5, 6), 9, true, 7, 8);
    let mut rec = before;
    let beside = Ray::new(Vec3::new(3 * U, 0, 5 * U), Vec3::new(0, 0, -U), 0);
    assert!(!s.hit(&beside, &forward(), &mut rec));
    assert_eq!(rec, before);
    let away = Ray::new(Vec3::new(0, 0, 5 * U), Vec3::new(0, 0, U), 0);
    assert!(!s.hit(&away, &forward(), &mut rec));
    assert_eq!(rec, before);
    let still = Ray::new(Vec3::new(0, 0, 5 * U), Vec3::zero(), 0);
    assert!(!s.hit(&still, &forward(), &mut rec));
    assert_eq!(rec, before);
}

#[test]
fn sphere_roots_outside_the_range_miss() {
    let s = Sphere::new(Vec3::zero(), 2 * U, 0);
    let ray = Ray::new(Vec3::new(0, 0, 5 * U), Vec3::new(0, 0, -U), 0);
    let mut rec = HitRecord::default();
    // the roots are 3 and 7
    assert!(!s.hit(&ray, &Interval::new(0, 3 * U), &mut rec));
    assert!(s.hit(&ray, &Interval::new(0, 3 * U + 1), &mut rec));
    assert_eq!(rec.t, 3 * U);
    assert!(s.hit(&ray, &Interval::new(3 * U, 8 * U), &mut rec));
    assert_eq!(rec.t, 7 * U);
    assert!(!s.hit(&ray, &Interval::new(3 * U, 7 * U), &mut rec));
    assert!(!s.hit(&ray, &Interval::new(8 * U, INFINITY), &mut rec));
}

#[test]
fn sphere_box_reaches_the_radius_on_every_side() {
    let s = Sphere::new(Vec3::new(U, 2 * U, 3 * U), U / 2, 0);
    let b = s.bounding_box();
    assert_eq!((b.x.tmin, b.x.tmax), (U / 2, 3 * U / 2));
    assert_eq!((b.y.tmin, b.y.tmax), (3 * U / 2, 5 * U / 2));
    assert_eq!((b.z.tmin, b.z.tmax), (5 * U / 2, 7 * U / 2));
    assert_eq!(still_box_of(Vec3::new(U, 2 * U, 3 * U), U / 2), b);
    // a negative radius reaches nowhere: the box is the padded centre
    let hollow = Sphere::new(Vec3::zero(), -U, 0);
    let h = hollow.bounding_box();
    assert_eq!((h.x.tmin, h.x.tmax), (-5, 5));
}

#[test]
fn moving_sphere_is_where_the_time_says() {
    let s = Sphere::new_moving(Vec3::zero(), Vec3::new(0, 2 * U, 0), U, 0);
    assert_eq!(s.sphere_center(0), Vec3::zero());
    assert_eq!(s.sphere_center(U / 2), Vec3::new(0, U, 0));
    assert_eq!(s.sphere_center(U), Vec3::new(0, 2 * U, 0));
    let b = s.bounding_box();
    assert_eq!((b.y.tmin, b.y.tmax), (-U, 3 * U));
    assert_eq!((b.x.tmin, b.x.tmax), (-U, U));
    // at time 1 the sphere has left the line y = 0 ... 
    let mut rec = HitRecord::default();
    let late = Ray::new(Vec3::new(0, -U / 2, 5 * U), Vec3::new(0, 0, -U), U);
    assert!(!s.hit(&late, &forward(), &mut rec));
    // ... on which it lies at time 0
    let early = Ray::new(Vec3::new(0, 0, 5 * U), Vec3::new(0, 0, -U), 0);
    assert!(s.hit(&early, &forward(), &mut rec));
    assert_eq!(rec.t, 4 * U);
    let top = Ray::new(Vec3::new(0, 2 * U, 5 * U), Vec3::new(0, 0, -U), U);
    assert!(s.hit(&top, &forward(), &mut rec));
    assert_eq!(rec.t, 4 * U);
}

fn square() -> Quad {
    Quad::new(Vec3::zero(), Vec3::new(2 * U, 0, 0), Vec3::new(0, 2 * U, 0), 5)
}

#[test]
fn quad_hit_in_the_middle() {
    let q = square();
    let ray = Ray::new(Vec3::new(U, U, 3 * U), Vec3::new(0, 0, -U), 0);
    let mut rec = HitRecord::default();
    assert!(q.hit(&ray, forward(), &mut rec));
    assert_eq!(rec.t, 3 * U);
    assert_eq!(rec.point, Vec3::new(U, U, 0));
    assert_eq!((rec.u, rec.v), (U / 2, U / 2));
    assert_eq!(rec.normal, Vec3::new(0, 0, U));
    assert!(rec.front_face);
    assert_eq!(rec.material, 5);
}

#[test]
fn quad_hit_from_behind_turns_the_normal() {
    let q = square();
    let ray = Ray::new(Vec3::new(U / 2, 3 * U / 2, -3 * U), Vec3::new(0, 0, U), 0);
    let mut rec = HitRecord::default();
    assert!(q.hit(&ray, forward(), &mut rec));
    assert_eq!(rec.t, 3 * U);
    assert_eq!((rec.u, rec.v), (U / 4, 3 * U / 4));
    assert_eq!(rec.normal, Vec3::new(0, 0, -U));
    assert!(!rec.front_face);
}

#[test]
fn quad_corner_is_inside_and_opposite_corner_is_outside() {
    let q = square();
    let mut rec = HitRecord::default();
    let at_corner = Ray::new(Vec3::new(0, 0, 3 * U), Vec3::new(0, 0, -U), 0);
    assert!(q.hit(&at_corner, forward(), &mut rec));
    assert_eq!((rec.u, rec.v), (0, 0));
    let before = rec;
    let at_opposite = Ray::new(Vec3::new(2 * U, 2 * U, 3 * U), Vec3::new(0, 0, -U), 0);
    assert!(!q.hit(&at_opposite, forward(), &mut rec));
    assert_eq!(rec, before);
    let on_far_edge = Ray::new(Vec3::new(2 * U, U, 3 * U), Vec3::new(0, 0, -U), 0);
    assert!(!q.hit(&on_far_edge, forward(), &mut rec));
    let on_near_edge = Ray::new(Vec3::new(0, U, 3 * U), Vec3::new(0, 0, -U), 0);
    assert!(q.hit(&on_near_edge, forward(), &mut rec));
    assert_eq!((rec.u, rec.v), (0, U / 2));
    let just_inside = Ray::new(Vec3::new(2 * U - 1, 2 * U - 1, 3 * U), Vec3::new(0, 0, -U), 0);
    assert!(q.hit(&just_inside, forward(), &mut rec));
    assert_eq!((rec.u, rec.v), (U - 1, U - 1));
    let just_outside = Ray::new(Vec3::new(-1, U, 3 * U), Vec3::new(0, 0, -U), 0);
    assert!(!q.hit(&just_outside, forward(), &mut rec));
}

#[test]
fn quad_planar_coordinates_of_the_corners() {
    let nn: i128 = 16 * (U as i128).pow(4);
    assert_eq!(planar(0, nn), 0);
    assert_eq!(planar(nn, nn), U);
    assert_eq!(planar(nn / 2, nn), U / 2);
    assert_eq!(planar(nn - 1, nn), U - 1);
    assert_eq!(planar(-1, nn), -1);
    assert_eq!(planar(3 * nn, nn), U);
    assert_eq!(planar(1, 3), 33_333);
    assert_eq!(planar(2, 3), 66_666);
}

#[test]
fn quad_interior_is_half_open() {
    let q = square();
    let before = HitRecord::default();
    let mut rec = before;
    assert!(q.is_interier(0, 0, &mut rec));
    assert_eq!((rec.u, rec.v), (0, 0));
    assert!(q.is_interier(U - 1, 3, &mut rec));
    assert_eq!((rec.u, rec.v), (U - 1, 3));
    let kept = rec;
    assert!(!q.is_interier(U, U, &mut rec));
    assert!(!q.is_interier(U, 0, &mut rec));
    assert!(!q.is_interier(0, U, &mut rec));
    assert!(!q.is_interier(-1, 0, &mut rec));
    assert!(!q.is_interier(0, -1, &mut rec));
    assert_eq!(rec, kept);
}

#[test]
fn quad_parallel_ray_and_range() {
    let q = square();
    let mut rec = HitRecord::default();
    let along = Ray::new(Vec3::new(-U, U, 0), Vec3::new(U, 0, 0), 0);
    assert!(!q.hit(&along, Interval::new(NEG_INFINITY, INFINITY), &mut rec));
    let above = Ray::new(Vec3::new(-U, U, U), Vec3::new(U, 0, 0), 0);
    assert!(!q.hit(&above, Interval::new(NEG_INFINITY, INFINITY), &mut rec));
    let down = Ray::new(Vec3::new(U, U, 3 * U), Vec3::new(0, 0, -U), 0);
    // the range is closed at both ends
    assert!(q.hit(&down, Interval::new(3 * U, 3 * U), &mut rec));
    assert!(!q.hit(&down, Interval::new(0, 3 * U - 1), &mut rec));
    assert!(!q.hit(&down, Interval::new(3 * U + 1, INFINITY), &mut rec));
}

#[test]
fn degenerate_quad_is_never_hit() {
    let q = Quad::new(Vec3::zero(), Vec3::new(2 * U, 0, 0), Vec3::new(U, 0, 0), 0);
    let mut rec = HitRecord::default();
    let down = Ray::new(Vec3::new(U, 0, 3 * U), Vec3::new(0, 0, -U), 0);
    assert!(!q.hit(&down, Interval::new(NEG_INFINITY, INFINITY), &mut rec));
}

#[test]
fn slanted_quad_has_a_unit_normal() {
    let q = Quad::new(Vec3::zero(), Vec3::new(U, 0, U), Vec3::new(0, U, 0), 0);
    // u × v = (-U², 0, U²), of length √2 U²
    assert_eq!(q.n, Vec3::new(-U * U, 0, U * U));
    assert_eq!(q.normal, Vec3::new(-70_711, 0, 70_710));
    let b = q.bounding_box();
    assert_eq!((b.x.tmin, b.x.tmax), (0, U));
    assert_eq!((b.z.tmin, b.z.tmax), (0, U));
}

#[test]
fn box_is_six_quads_of_one_material() {
    let mut world = World::new();
    let sides = create_box(Vec3::new(U, U, U), Vec3::zero(), 3, &mut world);
    assert_eq!(sides.objects, vec![0, 1, 2, 3, 4, 5]);
    assert_eq!(world.shapes.len(), 6);
    let expected = [
        (Vec3::new(0, 0, U), Vec3::new(U, 0, 0), Vec3::new(0, U, 0)),
        (Vec3::new(U, 0, U), Vec3::new(0, 0, -U), Vec3::new(0, U, 0)),
        (Vec3::new(U, 0, 0), Vec3::new(-U, 0, 0), Vec3::new(0, U, 0)),
        (Vec3::new(0, 0, 0), Vec3::new(0, 0, U), Vec3::new(0, U, 0)),
        (Vec3::new(0, U, U), Vec3::new(U, 0, 0), Vec3::new(0, 0, -U)),
        (Vec3::new(0, 0, 0), Vec3::new(U, 0, 0), Vec3::new(0, 0, U)),
    ];
    for k in 0..6 {
        assert_eq!(side_of(Vec3::new(U, U, U), Vec3::zero(), k as u8), expected[k]);
        match &world.shapes[k] {
            Shape::Quad(q) => {
                assert_eq!((q.q, q.u, q.v), expected[k]);
                assert_eq!(q.material, 3);
            }
            _ => panic!("side {} is no quad", k),
        }
    }
    let b = sides.bounding_box();
    assert_eq!((b.x.tmin, b.x.tmax), (-5, U + 5));
    assert_eq!((b.y.tmin, b.y.tmax), (-5, U + 5));
    assert_eq!((b.z.tmin, b.z.tmax), (-5, U + 5));
}

#[test]
fn sphere_map_follows_the_angles_of_the_normal() {
    let mut worst: f64 = 0.0;
    // the four points of the compass, the poles, and a few thousand points between
    for a in 0..72 {
        for b in 1..36 {
            let theta = (b as f64) * std::f64::consts::PI / 36.0;
            let phi = (a as f64) * std::f64::consts::PI / 36.0;
            let (x, y, z) = (-phi.cos() * theta.sin(), -theta.cos(), phi.sin() * theta.sin());
            let p = Vec3::new((x * U as f64) as i64, (y * U as f64) as i64, (z * U as f64) as i64);
            let (mut u, mut v) = (0, 0);
            Sphere::get_sphere_uv(p, &mut u, &mut v);
            let want_u = ((-z).atan2(x) + std::f64::consts::PI) / (2.0 * std::f64::consts::PI);
            let want_v = (-y).acos() / std::f64::consts::PI;
            let du = (u as f64 / U as f64 - want_u).abs();
            let dv = (v as f64 / U as f64 - want_v).abs();
            // 0 and 1 are the same place on the way around
            let du = du.min(1.0 - du);
            worst = worst.max(du).max(dv);
        }
    }
    assert!(worst < 1.0e-4, "off by {}", worst);
    // a quarter, a half and three quarters of a turn, in radians on the grid
    assert_eq!(arc_tangent(U, 0), 157_080);
    assert_eq!(arc_tangent(0, -U), 314_159);
    assert_eq!(arc_tangent(-U, 0), -157_080);
    assert_eq!(arc_tangent(0, U), 0);
    assert_eq!(arc_tangent(0, 0), 0);
    assert_eq!(arc_tangent(3, 0), 157_080);
    assert_eq!(arc_tangent(0, -3), 314_159);
    assert!((arc_tangent(U, U) - 78_540).abs() <= 3);
    assert!((arc_tangent(-50_000, -86_603) + 261_799).abs() <= 3);
    assert_eq!(arc_cosine(U), 0);
    assert_eq!(arc_cosine(0), 157_080);
    assert_eq!(arc_cosine(-U), 314_159);
    assert!((arc_cosine(50_000) - 104_720).abs() <= 3);
    assert_eq!(arc_cosine(7 * U), arc_cosine(U));
    assert_eq!(arc_cosine(-7 * U), arc_cosine(-U));
}

#[test]
fn sphere_hit_carries_the_map_coordinates() {
    let s = Sphere::new(Vec3::zero(), 2 * U, 0);
    let mut rec = HitRecord::default();
    // hit at the point on +x: half way around, half way up
    assert!(s.hit(&Ray::new(Vec3::new(5 * U, 0, 0), Vec3::new(-U, 0, 0), 0), &forward(), &mut rec));
    assert!((rec.u - U / 2).abs() <= 2, "u = {}", rec.u);
    assert!((rec.v - U / 2).abs() <= 2, "v = {}", rec.v);
    // at the top
    assert!(s.hit(&Ray::new(Vec3::new(0, 5 * U, 0), Vec3::new(0, -U, 0), 0), &forward(), &mut rec));
    assert!((rec.v - U).abs() <= 2, "v = {}", rec.v);
    // on +z: a quarter of the way around
    assert!(s.hit(&Ray::new(Vec3::new(0, 0, 5 * U), Vec3::new(0, 0, -U), 0), &forward(), &mut rec));
    assert!((rec.u - U / 4).abs() <= 2, "u = {}", rec.u);
    assert!((rec.v - U / 2).abs() <= 2, "v = {}", rec.v);
    // on -z: three quarters
    assert!(s.hit(&Ray::new(Vec3::new(0, 0, -5 * U), Vec3::new(0, 0, U), 0), &forward(), &mut rec));
    assert!((rec.u - 3 * U / 4).abs() <= 2, "u = {}", rec.u);
}

#[test]
fn unit_sphere_seen_from_the_z_axis() {
    let s = Sphere::new(Vec3::zero(), U, 3);
    let ray = Ray::new(Vec3::new(0, 0, 3 * U), Vec3::new(0, 0, -U), 0);
    let mut rec = HitRecord::default();
    assert!(s.hit(&ray, &forward(), &mut rec));
    assert_eq!(rec.t, 2 * U);
    assert_eq!(rec.point, Vec3::new(0, 0, U));
    assert_eq!(rec.normal, Vec3::new(0, 0, U));
    assert!(rec.front_face);
    assert_eq!((rec.u, rec.v), (U / 4, U / 2));
    assert_eq!(rec.material, 3);
}

#[test]
fn surface_coordinates_on_the_axes() {
    let at = |p: Vec3| {
        let (mut u, mut v) = (0i64, 0i64);
        Sphere::get_sphere_uv(p, &mut u, &mut v);
        (u, v)
    };
    assert_eq!(at(Vec3::new(0, 0, U)), (U / 4, U / 2));
    assert_eq!(at(Vec3::new(U, 0, 0)), (U / 2, U / 2));
    assert_eq!(at(Vec3::new(0, 0, -U)), (3 * U / 4, U / 2));
    assert_eq!(at(Vec3::new(-U, 0, 0)), (U, U / 2));
    assert_eq!(at(Vec3::new(0, -U, 0)).1, 0);
    assert_eq!(at(Vec3::new(0, U, 0)).1, U);
}

#[test]
fn sphere_aimed_at_along_a_slanted_direction() {
    // directions of exactly unit length: (0.6, 0.8, 0) and (-0.28, 0, 0.96)
    let cases = [
        (Vec3::new(3 * U, 4 * U, 0), Vec3::new(60_000, 80_000, 0), 5 * U, U),
        (Vec3::new(-28 * U, 0, 96 * U), Vec3::new(-28_000, 0, 96_000), 100 * U, 7 * U),
        (Vec3::new(-3, -4, 0), Vec3::new(-60_000, -80_000, 0), 5, 2),
    ];
    for (centre, dir, dist, radius) in cases {
        let s = Sphere::new(centre, radius, 1);
        let ray = Ray::new(Vec3::zero(), dir, 0);
        let mut rec = HitRecord::default();
        assert!(s.hit(&ray, &Interval::new(0, INFINITY), &mut rec));
        assert_eq!(rec.t, dist - radius);
        assert_eq!(rec.point, ray.at(dist - radius));
        assert!(rec.front_face);
        assert!(rec.normal * dir < 0);
        let slack = (U + radius) / radius + 1;
        assert!((rec.normal.x + dir.x).abs() <= slack, "{:?}", rec.normal);
        assert!((rec.normal.y + dir.y).abs() <= slack, "{:?}", rec.normal);
        assert!((rec.normal.z + dir.z).abs() <= slack, "{:?}", rec.normal);
    }
    let s = Sphere::new(Vec3::new(3 * U, 4 * U, 0), U, 1);
    let ray = Ray::new(Vec3::zero(), Vec3::new(60_000, 80_000, 0), 0);
    let mut rec = HitRecord::default();
    assert!(s.hit(&ray, &forward(), &mut rec));
    assert_eq!(rec.point, Vec3::new(240_000, 320_000, 0));
    assert_eq!(rec.normal, Vec3::new(-60_000, -80_000, 0));
}
