use raytracer::aabb::Aabb;
use raytracer::bvh::BVHnode;
use raytracer::hitable::{
    ConstantMedium, HitRecord, Hittable, Hittable_list, RotateY, Sample, Sampler, Shape, Translate,
    turn_in, turn_out, World,
};
use raytracer::interval::Interval;
use raytracer::material::{Isotropic, Material};
use raytracer::ray::Ray;
use raytracer::sphere::Sphere;
use raytracer::texture::{SolidColor, Texture};
use raytracer::scalar::{INFINITY, UNIT};
use raytracer::vec3::Vec3;

const U: i64 = UNIT;

fn forward() -> Interval {
    Interval::new(100, INFINITY)
}

fn no_draws() -> Sampler {
    Sampler::new(Vec::new())
}

fn blank(log_uniform: i64) -> Sample {
    Sample {
        unit: Vec3::zero(),
        disk: Vec3::zero(),
        square: Vec3::zero(),
        uniform: 0,
        log_uniform,
    }
}

fn down_z() -> Ray {
    Ray::new(Vec3::zero(), Vec3::new(0, 0, -U), 0)
}

#[test]
fn sampler_reads_in_order_and_starts_over() {
    let mut s = Sampler::new(vec![blank(-1), blank(-2), blank(-3)]);
    assert_eq!(s.take().log_uniform, -1);
    assert_eq!(s.take().log_uniform, -2);
    assert_eq!(s.take().log_uniform, -3);
    assert_eq!(s.next, 0);
    assert_eq!(s.take().log_uniform, -1);
    let mut empty = no_draws();
    assert_eq!(empty.take(), blank(0));
    let mut late = Sampler { samples: vec![blank(-1), blank(-2)], next: 5 };
    assert_eq!(late.take().log_uniform, -2);
    assert_eq!(late.next, 0);
}

#[test]
fn hit_record_face_normal() {
    let mut rec = HitRecord::default();
    assert_eq!(rec, HitRecord::new(0, Vec3::zero(), Vec3::zero(), 0, false, 0, 0));
    rec.set_face_normal(down_z(), Vec3::new(0, 0, U));
    assert!(rec.front_face);
    assert_eq!(rec.normal, Vec3::new(0, 0, U));
    rec.set_face_normal(down_z(), Vec3::new(0, 0, -U));
    assert!(!rec.front_face);
    assert_eq!(rec.normal, Vec3::new(0, 0, U));
    // a normal at right angles to the ray does not face against it
    rec.set_face_normal(down_z(), Vec3::new(U, 0, 0));
    assert!(!rec.front_face);
    assert_eq!(rec.normal, Vec3::new(-U, 0, 0));
}

fn two_spheres(near_first: bool) -> (World, usize) {
    let mut world = World::new();
    let near = Sphere::new(Vec3::new(0, 0, -3 * U), U, 1);
    let far = Sphere::new(Vec3::new(0, 0, -6 * U), U, 2);
    let (a, b) = if near_first { (near, far) } else { (far, near) };
    let a = a.instancing(&mut world);
    let b = b.instancing(&mut world);
    let list = Hittable_list::new(vec![a, b], &world);
    let root = list.instancing(&mut world);
    (world, root)
}

#[test]
fn list_keeps_the_nearest_hit_in_either_order() {
    for near_first in [true, false] {
        let (world, root) = two_spheres(near_first);
        let mut rec = HitRecord::default();
        let mut sampler = no_draws();
        assert!(world.hit(root, &down_z(), forward(), &mut rec, &mut sampler));
        assert_eq!(rec.t, 2 * U);
        assert_eq!(rec.material, 1);
        assert_eq!(rec.point, Vec3::new(0, 0, -2 * U));
    }
}

#[test]
fn list_miss_leaves_the_record_alone() {
    let (world, root) = two_spheres(true);
    let before = HitRecord::new(11, Vec3::new(1, 2, 3), Vec3::new(4, 5, 6), 9, true, 7, 8);
    let mut rec = before;
    let mut sampler = no_draws();
    let up = Ray::new(Vec3::zero(), Vec3::new(0, U, 0), 0);
    assert!(!world.hit(root, &up, forward(), &mut rec, &mut sampler));
    assert_eq!(rec, before);
    let empty = Hittable_list::default();
    assert!(!empty.hit(&world, root, &down_z(), forward(), &mut rec, &mut sampler));
    assert_eq!(rec, before);
}

#[test]
fn list_box_grows_with_every_shape() {
    let (world, root) = two_spheres(true);
    let b = world.bounding_box(root);
    assert_eq!((b.x.tmin, b.x.tmax), (-U, U));
    assert_eq!((b.z.tmin, b.z.tmax), (-7 * U, -2 * U));
    let mut list = Hittable_list::default();
    assert_eq!(list.bounding_box(), Aabb::default());
    list.add(0, &world);
    assert_eq!(list.bounding_box(), world.bounding_box(0));
    list.add(1, &world);
    assert_eq!(list.bounding_box(), b);
    assert_eq!(list.objects, vec![0, 1]);
}

fn row_of_spheres() -> (World, Hittable_list) {
    let mut world = World::new();
    let mut list = Hittable_list::default();
    for k in 0..5 {
        let x = (4 - 2 * k) * U;
        let h = Sphere::new(Vec3::new(x, 0, -5 * U), U / 2, k as usize).instancing(&mut world);
        list.add(h, &world);
    }
    (world, list)
}

fn check_boxes(world: &World, h: usize, base: usize, leaves: &mut Vec<usize>) {
    match &world.shapes[h] {
        Shape::Bvh(n) if h >= base => {
            let l = world.bounding_box(n.left);
            let r = world.bounding_box(n.right);
            assert_eq!(n.bbox, Aabb::new_from_bbox(l, r));
            assert_eq!(n.bbox.x.tmin, l.x.tmin.min(r.x.tmin));
            assert_eq!(n.bbox.x.tmax, l.x.tmax.max(r.x.tmax));
            assert_eq!(n.bbox.y.tmin, l.y.tmin.min(r.y.tmin));
            assert_eq!(n.bbox.y.tmax, l.y.tmax.max(r.y.tmax));
            assert_eq!(n.bbox.z.tmin, l.z.tmin.min(r.z.tmin));
            assert_eq!(n.bbox.z.tmax, l.z.tmax.max(r.z.tmax));
            check_boxes(world, n.left, base, leaves);
            check_boxes(world, n.right, base, leaves);
        }
        _ => leaves.push(h),
    }
}

fn holds(outer: Aabb, inner: Aabb) -> bool {
    outer.x.tmin <= inner.x.tmin
        && inner.x.tmax <= outer.x.tmax
        && outer.y.tmin <= inner.y.tmin
        && inner.y.tmax <= outer.y.tmax
        && outer.z.tmin <= inner.z.tmin
        && inner.z.tmax <= outer.z.tmax
}

#[test]
fn tree_boxes_are_the_union_of_their_children() {
    let (mut world, mut list) = row_of_spheres();
    let root = list.to_bvh(&mut world);
    assert_eq!(root, world.shapes.len() - 1);
    let mut leaves = Vec::new();
    check_boxes(&world, root, 5, &mut leaves);
    leaves.sort();
    leaves.dedup();
    assert_eq!(leaves, vec![0, 1, 2, 3, 4]);
    let b = world.bounding_box(root);
    assert_eq!((b.x.tmin, b.x.tmax), (-9 * U / 2, 9 * U / 2));
    assert_eq!((b.y.tmin, b.y.tmax), (-U / 2, U / 2));
    assert_eq!((b.z.tmin, b.z.tmax), (-11 * U / 2, -9 * U / 2));
    assert_eq!(b, list.bounding_box());
    for leaf in 0..5 {
        assert!(holds(b, world.bounding_box(leaf)));
    }
}

#[test]
fn tree_orders_the_shapes_along_the_longest_axis() {
    let (mut world, mut list) = row_of_spheres();
    assert_eq!(list.objects, vec![0, 1, 2, 3, 4]);
    list.to_bvh(&mut world);
    // the spheres were listed from right to left; the split orders them from left to right
    assert_eq!(list.objects, vec![4, 3, 2, 1, 0]);
}

#[test]
fn tree_of_equal_keys_keeps_the_listed_order() {
    let mut world = World::new();
    let mut list = Hittable_list::default();
    for k in 0..4 {
        // the same lower bound on every axis for all four
        let h = Sphere::new(Vec3::new(0, 0, 0), 10 * U, k as usize).instancing(&mut world);
        list.add(h, &world);
    }
    list.to_bvh(&mut world);
    assert_eq!(list.objects, vec![0, 1, 2, 3]);
    // and by the lower bound on z, the longest axis, where that differs
    let mut world = World::new();
    let mut list = Hittable_list::default();
    for k in 0..4 {
        let h = Sphere::new(Vec3::new(0, 0, (k % 2) * U / 4), 10 * U, k as usize)
            .instancing(&mut world);
        list.add(h, &world);
    }
    list.to_bvh(&mut world);
    assert_eq!(list.objects, vec![0, 2, 1, 3]);
}

#[test]
fn tree_over_one_shape_names_it_twice() {
    let mut world = World::new();
    let h = Sphere::new(Vec3::new(0, 0, -3 * U), U, 0).instancing(&mut world);
    let mut objects = vec![h];
    let node = BVHnode::new_from_list(&mut objects, 0, 1, &mut world);
    assert_eq!((node.left, node.right), (h, h));
    assert_eq!(node.bounding_box(), world.bounding_box(h));
    assert_eq!(world.shapes.len(), 1);
    let root = node.instancing(&mut world);
    let mut rec = HitRecord::default();
    assert!(world.hit(root, &down_z(), forward(), &mut rec, &mut no_draws()));
    assert_eq!(rec.t, 2 * U);
}

#[test]
fn tree_over_two_shapes_keeps_their_order() {
    let (mut world, _) = two_spheres(false);
    let mut objects = vec![0, 1];
    let node = BVHnode::new_from_list(&mut objects, 0, 2, &mut world);
    assert_eq!((node.left, node.right), (0, 1));
    assert_eq!(objects, vec![0, 1]);
    let root = node.instancing(&mut world);
    let mut rec = HitRecord::default();
    assert!(world.hit(root, &down_z(), forward(), &mut rec, &mut no_draws()));
    assert_eq!(rec.t, 2 * U);
    assert_eq!(rec.material, 1);
}

#[test]
fn tree_over_a_part_of_the_list_leaves_the_rest() {
    let (mut world, list) = row_of_spheres();
    let mut objects = list.objects.clone();
    let node = BVHnode::new_from_list(&mut objects, 1, 4, &mut world);
    assert_eq!(objects, vec![0, 3, 2, 1, 4]);
    let b = node.bounding_box();
    assert_eq!((b.x.tmin, b.x.tmax), (-5 * U / 2, 5 * U / 2));
}

#[test]
fn tree_and_list_find_the_same_hits() {
    let (mut world, list) = row_of_spheres();
    let mut for_tree = Hittable_list::new(list.objects.clone(), &world);
    let flat = list.instancing(&mut world);
    let tree = for_tree.to_bvh(&mut world);
    for x in -50..=50 {
        for y in [-6, -3, 0, 2, 5] {
            let ray = Ray::new(
                Vec3::new(x * U / 10, y * U / 10, 0),
                Vec3::new(x * U / 100, 0, -U),
                0,
            );
            let mut a = HitRecord::default();
            let mut b = HitRecord::default();
            let hit_a = world.hit(flat, &ray, forward(), &mut a, &mut no_draws());
            let hit_b = world.hit(tree, &ray, forward(), &mut b, &mut no_draws());
            assert_eq!(hit_a, hit_b, "x = {}, y = {}", x, y);
            assert_eq!(a, b);
        }
    }
}

#[test]
fn tree_hit_stops_at_the_box() {
    let (mut world, mut list) = row_of_spheres();
    let root = list.to_bvh(&mut world);
    let before = HitRecord::new(11, Vec3::new(1, 2, 3), Vec3::new(4, 5, 6), 9, true, 7, 8);
    let mut rec = before;
    let up = Ray::new(Vec3::zero(), Vec3::new(0, U, 0), 0);
    assert!(!world.hit(root, &up, forward(), &mut rec, &mut no_draws()));
    assert_eq!(rec, before);
    assert!(world.hit(root, &down_z(), forward(), &mut rec, &mut no_draws()));
    assert_eq!(rec.t, 9 * U / 2);
    assert_eq!(rec.material, 2);
}

#[test]
fn translated_sphere_is_hit_where_it_was_moved_to() {
    let mut world = World::new();
    let s = Sphere::new(Vec3::zero(), U, 4).instancing(&mut world);
    let t = Translate::new(s, Vec3::new(0, 0, -5 * U), &world);
    let b = t.bounding_box();
    assert_eq!((b.z.tmin, b.z.tmax), (-6 * U, -4 * U));
    assert_eq!((b.x.tmin, b.x.tmax), (-U, U));
    let moved = t.instancing(&mut world);
    let mut rec = HitRecord::default();
    assert!(world.hit(moved, &down_z(), forward(), &mut rec, &mut no_draws()));
    assert_eq!(rec.t, 4 * U);
    assert_eq!(rec.point, Vec3::new(0, 0, -4 * U));
    assert_eq!(rec.normal, Vec3::new(0, 0, U));
    assert_eq!(rec.material, 4);
    let before = rec;
    let up = Ray::new(Vec3::zero(), Vec3::new(0, 0, U), 0);
    assert!(!world.hit(moved, &up, forward(), &mut rec, &mut no_draws()));
    assert_eq!(rec, before);
}

#[test]
fn translate_loses_a_ray_that_leaves_the_range() {
    let mut world = World::new();
    let s = Sphere::new(Vec3::zero(), U, 4).instancing(&mut world);
    let far = 0x2000_0000 - U;
    let moved = Translate::new(s, Vec3::new(0, 0, -far), &world).instancing(&mut world);
    let mut rec = HitRecord::default();
    // seen from the sphere, this ray starts beyond the range
    let ray = Ray::new(Vec3::new(0, 0, 2 * U), Vec3::new(0, 0, -U), 0);
    assert!(!world.hit(moved, &ray, forward(), &mut rec, &mut no_draws()));
    let ray = Ray::new(Vec3::new(0, 0, U), Vec3::new(0, 0, -U), 0);
    assert!(!world.hit(moved, &ray, Interval::new(100, 1000 * U), &mut rec, &mut no_draws()));
}

#[test]
fn quarter_turn_about_y() {
    // sine 1, cosine 0
    assert_eq!(turn_in(Vec3::new(1, 2, 3), U, 0), Vec3::new(-3, 2, 1));
    assert_eq!(turn_out(Vec3::new(1, 2, 3), U, 0), Vec3::new(3, 2, -1));
    assert_eq!(turn_out(turn_in(Vec3::new(7, 8, 9), U, 0), U, 0), Vec3::new(7, 8, 9));
    // no turn at all
    assert_eq!(turn_in(Vec3::new(1, 2, 3), 0, U), Vec3::new(1, 2, 3));
    assert_eq!(turn_out(Vec3::new(1, 2, 3), 0, U), Vec3::new(1, 2, 3));
}

#[test]
fn rotated_sphere_is_hit_where_it_was_turned_to() {
    let mut world = World::new();
    let s = Sphere::new(Vec3::new(3 * U, 0, 0), U, 4).instancing(&mut world);
    let r = RotateY::from_sin_cos(s, U, 0, &world);
    let b = r.bounding_box();
    assert_eq!((b.x.tmin, b.x.tmax), (-U, U));
    assert_eq!((b.y.tmin, b.y.tmax), (-U, U));
    assert_eq!((b.z.tmin, b.z.tmax), (-4 * U, -2 * U));
    let turned = r.instancing(&mut world);
    let mut rec = HitRecord::default();
    assert!(world.hit(turned, &down_z(), forward(), &mut rec, &mut no_draws()));
    assert_eq!(rec.t, 2 * U);
    assert_eq!(rec.point, Vec3::new(0, 0, -2 * U));
    assert_eq!(rec.normal, Vec3::new(0, 0, U));
    let before = rec;
    let along_x = Ray::new(Vec3::zero(), Vec3::new(U, 0, 0), 0);
    assert!(!world.hit(turned, &along_x, forward(), &mut rec, &mut no_draws()));
    assert_eq!(rec, before);
}

fn fog() -> (World, usize, usize) {
    let mut world = World::new();
    let boundary = Sphere::new(Vec3::zero(), U, 0).instancing(&mut world);
    let medium = ConstantMedium::new_from_color(boundary, U, Vec3::new(U, U, U), &mut world);
    assert_eq!(medium.neg_inv_density, -U);
    let phase = medium.phase_function;
    let h = medium.instancing(&mut world);
    (world, h, phase)
}

#[test]
fn medium_scatters_within_the_way_through_it() {
    let (world, medium, phase) = fog();
    assert_eq!(world.materials[phase], Material::Isotropic(Isotropic { tex: 0 }));
    assert!(matches!(
        &world.textures[0],
        Texture::Solid(SolidColor { albedo }) if *albedo == Vec3::new(U, U, U)
    ));
    assert_eq!(world.bounding_box(medium), world.bounding_box(0));
    match &world.shapes[medium] {
        Shape::Medium(m) => assert_eq!(m.bounding_box(&world, medium), world.bounding_box(0)),
        _ => panic!("no medium"),
    }
    let ray = Ray::new(Vec3::new(0, 0, 5 * U), Vec3::new(0, 0, -U), 0);
    // the ray is inside from 4 to 6; a free flight of 0.5 scatters it at 4.5
    let mut sampler = Sampler::new(vec![blank(-U / 2), blank(-3 * U)]);
    let before = HitRecord::new(11, Vec3::new(1, 2, 3), Vec3::new(4, 5, 6), 9, true, 7, 8);
    let mut rec = before;
    assert!(world.hit(medium, &ray, forward(), &mut rec, &mut sampler));
    assert_eq!(rec.t, 9 * U / 2);
    assert_eq!(rec.point, Vec3::new(0, 0, U / 2));
    assert_eq!(rec.material, phase);
    assert_eq!((rec.normal, rec.front_face, rec.u, rec.v), (before.normal, true, 7, 8));
    assert_eq!(sampler.next, 1);
    // a free flight of 3 carries it through
    let mut rec = before;
    assert!(!world.hit(medium, &ray, forward(), &mut rec, &mut sampler));
    assert_eq!(rec, before);
    assert_eq!(sampler.next, 0);
}

#[test]
fn medium_takes_no_draw_from_a_ray_that_passes_by() {
    let (world, medium, _) = fog();
    let mut sampler = Sampler::new(vec![blank(-U / 2), blank(-3 * U)]);
    let mut rec = HitRecord::default();
    let beside = Ray::new(Vec3::new(3 * U, 0, 5 * U), Vec3::new(0, 0, -U), 0);
    assert!(!world.hit(medium, &beside, forward(), &mut rec, &mut sampler));
    assert_eq!(sampler.next, 0);
    // the range ends before the medium begins
    let ray = Ray::new(Vec3::new(0, 0, 5 * U), Vec3::new(0, 0, -U), 0);
    assert!(!world.hit(medium, &ray, Interval::new(100, 3 * U), &mut rec, &mut sampler));
    assert_eq!(sampler.next, 0);
}

#[test]
fn medium_entered_from_inside_starts_at_the_origin() {
    let (world, medium, _) = fog();
    let mut sampler = Sampler::new(vec![blank(-U / 4)]);
    let mut rec = HitRecord::default();
    // inside from -1 to 1, brought into the range: from 0.001 on
    let ray = Ray::new(Vec3::zero(), Vec3::new(0, 0, -U), 0);
    assert!(world.hit(medium, &ray, forward(), &mut rec, &mut sampler));
    assert_eq!(rec.t, 100 + U / 4);
}

#[test]
fn denser_medium_scatters_sooner() {
    let mut world = World::new();
    let boundary = Sphere::new(Vec3::zero(), U, 0).instancing(&mut world);
    let m = ConstantMedium::new(boundary, 4 * U, 0, &mut world);
    assert_eq!(m.neg_inv_density, -U / 4);
    let medium = m.instancing(&mut world);
    let ray = Ray::new(Vec3::new(0, 0, 5 * U), Vec3::new(0, 0, -U), 0);
    let mut sampler = Sampler::new(vec![blank(-3 * U)]);
    let mut rec = HitRecord::default();
    assert!(world.hit(medium, &ray, forward(), &mut rec, &mut sampler));
    assert_eq!(rec.t, 4 * U + 3 * U / 4);
}

#[test]
fn rotation_by_degrees_takes_sine_and_cosine_itself() {
    let mut world = World::new();
    let s = Sphere::new(Vec3::new(3 * U, 0, 0), U, 4).instancing(&mut world);
    let r = RotateY::new(s, 90 * U, &world);
    assert_eq!((r.sin_theta, r.cos_theta), (U, 0));
    assert_eq!(
        r.bounding_box(),
        RotateY::from_sin_cos(s, r.sin_theta, r.cos_theta, &world).bounding_box()
    );
    let turned = r.instancing(&mut world);
    let mut rec = HitRecord::default();
    assert!(world.hit(turned, &down_z(), forward(), &mut rec, &mut no_draws()));
    assert_eq!(rec.t, 2 * U);
    assert_eq!(rec.point, Vec3::new(0, 0, -2 * U));
    let back = RotateY::new(s, -90 * U, &world).instancing(&mut world);
    let up_z = Ray::new(Vec3::zero(), Vec3::new(0, 0, U), 0);
    assert!(world.hit(back, &up_z, forward(), &mut rec, &mut no_draws()));
    assert!(!world.hit(back, &down_z(), forward(), &mut rec, &mut no_draws()));
}

#[test]
fn sphere_turned_by_a_right_angle_is_hit_on_the_z_axis() {
    let mut world = World::new();
    let s = Sphere::new(Vec3::new(2 * U, 0, 0), U, 4).instancing(&mut world);
    let turned = RotateY::new(s, 90 * U, &world).instancing(&mut world);
    let mut rec = HitRecord::default();
    assert!(world.hit(turned, &down_z(), forward(), &mut rec, &mut no_draws()));
    assert_eq!(rec.t, U);
    assert_eq!(rec.point, Vec3::new(0, 0, -U));
    assert_eq!(rec.normal, Vec3::new(0, 0, U));
    assert!(rec.front_face);
}

#[test]
fn turning_a_box_by_no_angle_and_by_a_right_angle() {
    let mut world = World::new();
    let s = Sphere::new(Vec3::new(2 * U, 0, 0), U, 4).instancing(&mut world);
    let b = world.bounding_box(s);
    assert_eq!((b.x.tmin, b.x.tmax), (U, 3 * U));
    assert_eq!((b.z.tmin, b.z.tmax), (-U, U));
    assert_eq!(RotateY::new(s, 0, &world).bounding_box(), b);
    assert_eq!(RotateY::new(s, 360 * U, &world).bounding_box(), b);
    let quarter = RotateY::new(s, 90 * U, &world).bounding_box();
    assert_eq!((quarter.x.tmin, quarter.x.tmax), (-U, U));
    assert_eq!((quarter.y.tmin, quarter.y.tmax), (-U, U));
    assert_eq!((quarter.z.tmin, quarter.z.tmax), (-3 * U, -U));
}

#[test]
fn tree_keeps_a_handle_that_is_listed_twice() {
    let mut world = World::new();
    let a = Sphere::new(Vec3::new(5 * U, 0, -3 * U), U, 0).instancing(&mut world);
    let c = Sphere::new(Vec3::new(-5 * U, 0, -3 * U), U, 1).instancing(&mut world);
    let mut objects = vec![a, a, c];
    BVHnode::new_from_list(&mut objects, 0, 3, &mut world);
    assert_eq!(objects, vec![c, a, a]);
    let mut more = vec![c, a, c, a, a];
    BVHnode::new_from_list(&mut more, 0, 5, &mut world);
    more.sort();
    assert_eq!(more, vec![a, a, a, c, c]);
}

#[test]
fn tree_is_cut_in_the_middle_all_the_way_down() {
    let mut world = World::new();
    let mut objects: Vec<usize> = Vec::new();
    for k in 0..5 {
        objects.push(Sphere::new(Vec3::new((4 - k) * 3 * U, 0, 0), U, 0).instancing(&mut world));
    }
    let node = BVHnode::new_from_list(&mut objects, 0, 5, &mut world);
    // the spheres in the order of their boxes along x
    assert_eq!(objects, vec![4, 3, 2, 1, 0]);
    let (left, right) = match (&world.shapes[node.left], &world.shapes[node.right]) {
        (Shape::Bvh(l), Shape::Bvh(r)) => (*l, *r),
        _ => panic!("the children of a node over five shapes are nodes"),
    };
    // two shapes to the left, three to the right
    assert_eq!((left.left, left.right), (4, 3));
    let (single, pair) = match (&world.shapes[right.left], &world.shapes[right.right]) {
        (Shape::Bvh(l), Shape::Bvh(r)) => (*l, *r),
        _ => panic!("the children of a node over three shapes are nodes"),
    };
    // a half of one shape is a node that names the shape twice
    assert_eq!((single.left, single.right), (2, 2));
    assert_eq!((pair.left, pair.right), (1, 0));
    // five spheres and four nodes; the fifth node is the one returned
    assert_eq!(world.shapes.len(), 9);
}

#[test]
fn medium_scatters_between_its_way_in_and_its_way_out() {
    let mut world = World::new();
    let s = Sphere::new(Vec3::new(0, 0, -5 * U), 2 * U, 0).instancing(&mut world);
    let medium = ConstantMedium::new_from_color(s, U / 2, Vec3::new(U, U, U), &mut world)
        .instancing(&mut world);
    for k in 0..=40 {
        let mut sampler = Sampler::new(vec![blank(-k * U / 10)]);
        let mut rec = HitRecord::default();
        if world.hit(medium, &down_z(), forward(), &mut rec, &mut sampler) {
            assert!((3 * U..=7 * U).contains(&rec.t), "t = {}", rec.t);
        }
        let mut rec = HitRecord::default();
        let near = Interval::new(4 * U, 6 * U);
        let mut sampler = Sampler::new(vec![blank(-k * U / 10)]);
        if world.hit(medium, &down_z(), near, &mut rec, &mut sampler) {
            assert!((4 * U..=6 * U).contains(&rec.t), "t = {}", rec.t);
        }
    }
    // a ray that does not move hits nothing
    let still = Ray::new(Vec3::new(0, 0, -5 * U), Vec3::zero(), 0);
    let mut rec = HitRecord::default();
    assert!(!world.hit(medium, &still, forward(), &mut rec, &mut no_draws()));
    assert!(!world.hit(s, &still, forward(), &mut rec, &mut no_draws()));
}
