use raytracer::ray::Ray;
use raytracer::scalar::UNIT;
use raytracer::vec3::Vec3;

#[test]
fn vec3_components_and_lp() {
    let v = Vec3::new(1, 2, 3);
    assert_eq!((v.x(), v.y(), v.z()), (1, 2, 3));
    assert_eq!(v.lp(0), 1);
    assert_eq!(v.lp(1), 2);
    assert_eq!(v.lp(2), 3);
    assert_eq!(v.lp(9), 3);
}

#[test]
fn vec3_sum_difference_and_products() {
    let a = Vec3::new(1, 2, 3);
    let b = Vec3::new(2, 3, 4);
    assert_eq!(a + b, Vec3::new(3, 5, 7));
    assert_eq!(a - b, Vec3::new(-1, -1, -1));
    assert_eq!(a * b, 20);
    assert_eq!(a.squared_length(), 14);
    assert_eq!(Vec3::new(3, 4, 0).length(), 5);
    assert_eq!(Vec3::new(1, 1, 1).length(), 1);
}

#[test]
fn vec3_sums_saturate() {
    let big = Vec3::new(i64::MAX, i64::MIN, 0);
    assert_eq!(big + Vec3::new(1, -1, 0), big);
    assert_eq!(big - Vec3::new(-1, 1, 0), big);
}

#[test]
fn vec3_scale_and_quotient_are_fixed_point() {
    let v = Vec3::new(2 * UNIT, -UNIT, 7);
    assert_eq!(v * (UNIT / 2), Vec3::new(UNIT, -UNIT / 2, 3));
    assert_eq!(v / (2 * UNIT), Vec3::new(UNIT, -UNIT / 2, 3));
    assert_eq!(v * (2 * UNIT), Vec3::new(4 * UNIT, -2 * UNIT, 14));
}

#[test]
fn vec3_cross_follows_the_right_hand() {
    let x = Vec3::new(1, 0, 0);
    let y = Vec3::new(0, 1, 0);
    assert_eq!(x.cross(y), Vec3::new(0, 0, 1));
    assert_eq!(y.cross(x), Vec3::new(0, 0, -1));
    let a = Vec3::new(1, 2, 3);
    assert_eq!(a.cross(a), Vec3::zero());
    assert_eq!(Vec3::new(2, 3, 4).cross(Vec3::new(5, 6, 7)), Vec3::new(-3, 6, -3));
}

#[test]
fn vec3_merge_min_and_max() {
    let a = Vec3::new(1, 2, 3);
    let b = Vec3::new(0, 3, 2);
    assert_eq!(Vec3::merge_min(&a, &b), Vec3::new(0, 2, 2));
    assert_eq!(Vec3::merge_max(&a, &b), Vec3::new(1, 3, 3));
}

#[test]
fn vec3_ones_zero_and_near_zero() {
    assert_eq!(Vec3::ones(), Vec3::new(UNIT, UNIT, UNIT));
    assert_eq!(Vec3::zero(), Vec3::new(0, 0, 0));
    assert!(Vec3::zero().near_zero());
    assert!(!Vec3::new(0, 1, 0).near_zero());
    assert!(Vec3::new(5, -5, 0).is_within(5));
    assert!(!Vec3::new(5, -6, 0).is_within(5));
}

#[test]
fn ray_at_walks_along_the_direction() {
    let r = Ray::new(Vec3::new(UNIT, 0, 0), Vec3::new(0, 2 * UNIT, -UNIT), 0);
    assert_eq!(r.origin(), Vec3::new(UNIT, 0, 0));
    assert_eq!(r.direction(), Vec3::new(0, 2 * UNIT, -UNIT));
    assert_eq!(r.time(), 0);
    assert_eq!(r.at(0), Vec3::new(UNIT, 0, 0));
    assert_eq!(r.at(UNIT), Vec3::new(UNIT, 2 * UNIT, -UNIT));
    assert_eq!(r.at(UNIT / 2), Vec3::new(UNIT, UNIT, -UNIT / 2));
    assert_eq!(r.at(-UNIT), Vec3::new(UNIT, -2 * UNIT, UNIT));
}

#[test]
fn ray_default_and_range() {
    let d = Ray::default();
    assert_eq!(d.origin(), Vec3::zero());
    assert_eq!(d.direction(), Vec3::zero());
    assert!(d.is_in_range());
    let far = Ray::new(Vec3::new(0x2000_0001, 0, 0), Vec3::new(1, 0, 0), 0);
    assert!(!far.is_in_range());
    let late = Ray::new(Vec3::zero(), Vec3::new(1, 0, 0), UNIT + 1);
    assert!(!late.is_in_range());
    let long = Ray::new(Vec3::zero(), Vec3::new(0x4000_0001, 0, 0), 0);
    assert!(!long.is_in_range());
}

#[test]
fn vec3_plus_a_scalar_moves_every_component() {
    assert_eq!(Vec3::new(1, 2, 3) + 2, Vec3::new(3, 4, 5));
    assert_eq!(Vec3::new(i64::MAX, 0, i64::MIN) + 1, Vec3::new(i64::MAX, 1, i64::MIN + 1));
}

#[test]
fn vec3_sum_in_place() {
    let mut a = Vec3::new(1, 2, 3);
    a.add_assign(Vec3::new(2, 3, 4));
    assert_eq!(a, Vec3::new(3, 5, 7));
    let mut big = Vec3::new(i64::MAX, i64::MIN, 0);
    big.add_assign(Vec3::new(1, -1, 0));
    assert_eq!(big, Vec3::new(i64::MAX, i64::MIN, 0));
}
