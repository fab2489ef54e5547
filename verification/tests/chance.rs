use raytracer::hitable::Sample;
use raytracer::scalar::UNIT;
use raytracer::utils::{
    accept_in_disk, accept_on_sphere, facing, random_cen_165, random_f64_0_1, random_f64_101,
    random_f64_range, random_in_unit_disk, random_in_unit_shpere, random_int_range,
    random_on_hemisphere, random_squre, random_vec3, random_vec3_range,
};
use raytracer::vec3::Vec3;

const U: i64 = UNIT;

#[test]
fn draws_stay_in_their_range() {
    let mut low = false;
    let mut high = false;
    for _ in 0..2000 {
        let r = random_f64_range(-3, 4);
        assert!((-3..4).contains(&r));
        low |= r == -3;
        high |= r == 3;
        let u = random_f64_0_1();
        assert!((0..U).contains(&u));
        let h = random_f64_101();
        assert!((U..100 * U).contains(&h));
    }
    // seven values, two thousand draws: both ends are reached
    assert!(low && high);
    assert_eq!(random_f64_range(5, 6), 5);
}

#[test]
fn integer_draws_include_both_ends() {
    let mut seen = [false; 4];
    for _ in 0..2000 {
        let r = random_int_range(-1, 2);
        assert!((-1..=2).contains(&r));
        seen[(r + 1) as usize] = true;
    }
    assert_eq!(seen, [true; 4]);
    assert_eq!(random_int_range(3, 3), 3);
    assert_eq!(random_int_range(i32::MAX, i32::MAX), i32::MAX);
}

#[test]
fn vector_draws_stay_in_their_cube() {
    for _ in 0..500 {
        let v = random_vec3();
        assert!(v.is_within(U) && v.x < U && v.y < U && v.z < U);
        let c = random_cen_165();
        assert!((0..165 * U).contains(&c.x) && (0..165 * U).contains(&c.y) && (0..165 * U).contains(&c.z));
        let r = random_vec3_range(10, 12);
        assert!((10..12).contains(&r.x) && (10..12).contains(&r.y) && (10..12).contains(&r.z));
        let s = random_squre();
        assert!((-U / 2..U / 2).contains(&s.x) && (-U / 2..U / 2).contains(&s.y));
        assert_eq!(s.z, 0);
    }
}

#[test]
fn candidates_outside_the_ball_are_rejected() {
    assert_eq!(accept_on_sphere(Vec3::new(U, 0, 0)), None);
    assert_eq!(accept_on_sphere(Vec3::new(60_000, 80_000, 0)), None);
    assert_eq!(accept_on_sphere(Vec3::new(U - 1, 0, 0)), Some(Vec3::new(U, 0, 0)));
    assert_eq!(accept_on_sphere(Vec3::new(30_000, 40_000, 0)), Some(Vec3::new(60_000, 80_000, 0)));
    assert_eq!(accept_on_sphere(Vec3::zero()), Some(Vec3::zero()));
    assert_eq!(accept_on_sphere(Vec3::new(-U, -U, -U)), None);
    assert_eq!(accept_in_disk(Vec3::new(U, 0, 0)), None);
    assert_eq!(accept_in_disk(Vec3::new(30_000, -40_000, 0)), Some(Vec3::new(30_000, -40_000, 0)));
    assert_eq!(accept_in_disk(Vec3::zero()), Some(Vec3::zero()));
}

#[test]
fn random_directions_lie_in_the_unit_cube() {
    for _ in 0..500 {
        let v = random_in_unit_shpere();
        assert!(v.is_within(U));
        // each component is rounded down, and the length that divides it too
        let l = v.length();
        assert!(l <= 173_206, "length {}", l);
        let d = random_in_unit_disk();
        assert_eq!(d.z, 0);
        assert!(d.squared_length() < (U as i128) * (U as i128));
        let n = Vec3::new(0, U, 0);
        let h = random_on_hemisphere(n);
        assert!(h * n >= 0);
        assert!(h.y >= 0);
    }
}

#[test]
fn drawn_bundle_is_well_formed() {
    for _ in 0..200 {
        let s = Sample::draw();
        // the logarithm of a draw from 0.0001 up to 0.9999
        assert!((-921_100..=0).contains(&s.log_uniform), "{}", s.log_uniform);
        assert!(s.unit.is_within(U));
        assert!(s.disk.is_within(U) && s.disk.z == 0);
        assert!(s.square.is_within(U / 2) && s.square.z == 0);
        assert!((0..U).contains(&s.uniform));
    }
}

#[test]
fn a_direction_is_turned_to_the_side_of_the_normal() {
    let n = Vec3::new(0, U, 0);
    assert_eq!(facing(Vec3::new(60_000, 80_000, 0), n), Vec3::new(60_000, 80_000, 0));
    assert_eq!(facing(Vec3::new(60_000, -80_000, 0), n), Vec3::new(-60_000, 80_000, 0));
    // a direction along the surface is turned too
    assert_eq!(facing(Vec3::new(U, 0, 0), n), Vec3::new(-U, 0, 0));
    assert_eq!(facing(Vec3::zero(), n), Vec3::zero());
}

#[test]
fn drawn_bundle_lies_in_disk_and_square() {
    for _ in 0..200 {
        let s = Sample::draw();
        assert!(s.disk.squared_length() < (U as i128) * (U as i128));
        assert!((-U / 2..U / 2).contains(&s.square.x) && (-U / 2..U / 2).contains(&s.square.y));
        // the logarithm of a draw below one is below zero
        assert!(s.log_uniform < 0, "{}", s.log_uniform);
    }
}
