use raytracer::camera::{
    Camera, chunk_size, cut, HEIGHT_PARTITION, Scheduler, Step, THREAD_LIMIT, Tile, TILE_COUNT,
    tile_of, WIDTH_PARTITION,
};
use raytracer::color::{encode_channel, flush_tile, Frame, linear_to_gamma, write_color};
use raytracer::hitable::{Hittable, Hittable_list, Sample, Sampler, World};
use raytracer::material::{Diffuselight, Lambertian, MaterialTrait};
use raytracer::quad::Quad;
use raytracer::ray::Ray;
use raytracer::rasterizer2::{Buffer, ColBufId, get_index, IndBufId, PosBufId, Primitive};
use raytracer::sphere::Sphere;
use raytracer::scalar::UNIT;
use raytracer::vec3::Vec3;

const U: i64 = UNIT;

fn sky() -> Vec3 {
    Vec3::new(U / 2, 7 * U / 10, U)
}

fn camera(width: u32, height: u32, samples: u32, depth: u32) -> Camera {
    Camera::from_tangents(
        width,
        height,
        samples,
        depth,
        90 * U,
        U,
        Vec3::zero(),
        Vec3::new(0, 0, -U),
        Vec3::new(0, U, 0),
        0,
        0,
        U,
        sky(),
    )
}

fn straight() -> Sample {
    Sample { unit: Vec3::zero(), disk: Vec3::zero(), square: Vec3::zero(), uniform: 0, log_uniform: 0 }
}

fn tape() -> Sampler {
    Sampler::new(vec![straight()])
}

#[test]
fn camera_lays_the_pixel_grid_over_the_plane_of_focus() {
    let c = camera(100, 50, 4, 10);
    assert_eq!(c.camera_center, Vec3::zero());
    assert_eq!(c.aspect_ratio, 2 * U);
    assert_eq!(c.pixel_delta_u, Vec3::new(4_000, 0, 0));
    assert_eq!(c.pixel_delta_v, Vec3::new(0, -4_000, 0));
    assert_eq!(c.pixel_zero_loc, Vec3::new(-2 * U + 2_000, U - 2_000, -U));
    assert_eq!(c.pixel_samples_scale, U / 4);
    assert_eq!(c.defocus_disk_u, Vec3::zero());
    assert_eq!(c.defocus_disk_v, Vec3::zero());
    assert_eq!((c.width, c.height, c.samples_per_pixel, c.max_depth), (100, 50, 4, 10));
    assert_eq!(c.background, sky());
}

#[test]
fn camera_looks_sideways_when_told_to() {
    let c = Camera::from_tangents(
        10,
        10,
        1,
        1,
        90 * U,
        U,
        Vec3::new(5 * U, 0, 0),
        Vec3::zero(),
        Vec3::new(0, U, 0),
        0,
        0,
        5 * U,
        sky(),
    );
    // looking along -x: right is -z, up is y; the plane of focus is 10 by 10 at x = 0
    assert_eq!(c.pixel_delta_u, Vec3::new(0, 0, -U));
    assert_eq!(c.pixel_delta_v, Vec3::new(0, -U, 0));
    assert_eq!(c.pixel_zero_loc, Vec3::new(0, 5 * U - U / 2, 5 * U - U / 2));
}

#[test]
fn ray_goes_through_the_middle_of_its_pixel() {
    let c = camera(100, 50, 1, 1);
    let r = c.get_ray(50, 25, &straight());
    assert_eq!(r.origin(), Vec3::zero());
    assert_eq!(r.direction(), Vec3::new(2_000, -2_000, -U));
    assert_eq!(r.time(), 0);
    let first = c.get_ray(0, 0, &straight());
    assert_eq!(first.direction(), Vec3::new(-2 * U + 2_000, U - 2_000, -U));
    let jitter = Sample { square: Vec3::new(U / 2 - 1, -U / 2, 0), uniform: 333, ..straight() };
    let moved = c.get_ray(50, 25, &jitter);
    assert_eq!(moved.direction(), Vec3::new(3_999, 0, -U));
    assert_eq!(moved.time(), 333);
}

#[test]
fn ray_starts_on_the_lens_when_there_is_one() {
    let c = Camera::from_tangents(
        100,
        50,
        1,
        1,
        90 * U,
        U,
        Vec3::zero(),
        Vec3::new(0, 0, -U),
        Vec3::new(0, U, 0),
        10 * U,
        U / 10,
        2 * U,
        sky(),
    );
    // radius of the lens: 2 · 0.1
    assert_eq!(c.defocus_disk_u, Vec3::new(U / 5, 0, 0));
    assert_eq!(c.defocus_disk_v, Vec3::new(0, U / 5, 0));
    assert_eq!(c.defocus_disk_sample(Vec3::new(U / 2, -U, 0)), Vec3::new(U / 10, -U / 5, 0));
    let on_lens = Sample { disk: Vec3::new(U / 2, -U, 0), ..straight() };
    let r = c.get_ray(50, 25, &on_lens);
    assert_eq!(r.origin(), Vec3::new(U / 10, -U / 5, 0));
    // the plane of focus is twice as far and twice as large
    assert_eq!(r.direction(), Vec3::new(4_000 - U / 10, -4_000 + U / 5, -2 * U));
}

fn one_sphere() -> (World, usize) {
    let mut world = World::new();
    let matt = Lambertian::new_from_color(Vec3::new(U / 2, U / 2, U / 2), &mut world)
        .instancing(&mut world);
    let s = Sphere::new(Vec3::new(0, 0, -U), U / 2, matt).instancing(&mut world);
    let list = Hittable_list::new(vec![s], &world);
    let root = list.instancing(&mut world);
    (world, root)
}

#[test]
fn used_up_depth_is_black() {
    let (world, root) = one_sphere();
    let c = camera(100, 50, 1, 0);
    let mut sampler = tape();
    let at_sphere = Ray::new(Vec3::zero(), Vec3::new(0, 0, -U), 0);
    assert_eq!(c.ray_color(&at_sphere, &world, root, 0, &mut sampler), Vec3::zero());
    let at_sky = Ray::new(Vec3::zero(), Vec3::new(0, U, 0), 0);
    assert_eq!(c.ray_color(&at_sky, &world, root, 0, &mut sampler), Vec3::zero());
    assert_eq!(sampler.next, 0);
}

#[test]
fn ray_that_escapes_brings_the_background() {
    let (world, root) = one_sphere();
    let c = camera(100, 50, 1, 5);
    let at_sky = Ray::new(Vec3::zero(), Vec3::new(0, U, 0), 0);
    assert_eq!(c.ray_color(&at_sky, &world, root, 5, &mut tape()), sky());
    let out_of_range = Ray::new(Vec3::new(0x2000_0001, 0, 0), Vec3::new(0, 0, -U), 0);
    assert_eq!(c.ray_color(&out_of_range, &world, root, 5, &mut tape()), sky());
}

#[test]
fn one_bounce_dims_the_background_and_the_last_hit_is_black() {
    let (world, root) = one_sphere();
    let c = camera(100, 50, 1, 5);
    let at_sphere = Ray::new(Vec3::zero(), Vec3::new(0, 0, -U), 0);
    // hit, scattered along the normal, escaped: half the background
    assert_eq!(
        c.ray_color(&at_sphere, &world, root, 2, &mut tape()),
        Vec3::new(U / 4, 7 * U / 20, U / 2)
    );
    assert_eq!(
        c.ray_color(&at_sphere, &world, root, 5, &mut tape()),
        Vec3::new(U / 4, 7 * U / 20, U / 2)
    );
    // with one hit allowed, the scattered ray is not followed
    assert_eq!(c.ray_color(&at_sphere, &world, root, 1, &mut tape()), Vec3::zero());
}

#[test]
fn light_is_seen_and_lights_what_faces_it() {
    let mut world = World::new();
    let lamp = Diffuselight::new_from_color(Vec3::new(4 * U, 4 * U, 4 * U), &mut world)
        .instancing(&mut world);
    let matt = Lambertian::new_from_color(Vec3::new(U / 2, U / 4, U), &mut world)
        .instancing(&mut world);
    // a lamp above, a floor below
    let ceiling = Quad::new(
        Vec3::new(-5 * U, 5 * U, -5 * U),
        Vec3::new(10 * U, 0, 0),
        Vec3::new(0, 0, 10 * U),
        lamp,
    )
    .instancing(&mut world);
    let floor = Quad::new(
        Vec3::new(-5 * U, -5 * U, -5 * U),
        Vec3::new(10 * U, 0, 0),
        Vec3::new(0, 0, 10 * U),
        matt,
    )
    .instancing(&mut world);
    let root = Hittable_list::new(vec![ceiling, floor], &world).instancing(&mut world);
    let c = Camera::from_tangents(
        10, 10, 1, 5, 90 * U, U, Vec3::zero(), Vec3::new(0, 0, -U), Vec3::new(0, U, 0), 0, 0, U,
        Vec3::zero(),
    );
    let up = Ray::new(Vec3::zero(), Vec3::new(0, U, 0), 0);
    assert_eq!(c.ray_color(&up, &world, root, 5, &mut tape()), Vec3::new(4 * U, 4 * U, 4 * U));
    let down = Ray::new(Vec3::zero(), Vec3::new(0, -U, 0), 0);
    assert_eq!(c.ray_color(&down, &world, root, 5, &mut tape()), Vec3::new(2 * U, U, 4 * U));
    // the lamp is seen at the first hit, the floor needs a second
    assert_eq!(c.ray_color(&up, &world, root, 1, &mut tape()), Vec3::new(4 * U, 4 * U, 4 * U));
    assert_eq!(c.ray_color(&down, &world, root, 1, &mut tape()), Vec3::zero());
}

#[test]
fn hit_without_a_material_is_black() {
    let mut world = World::new();
    let s = Sphere::new(Vec3::new(0, 0, -U), U / 2, 42).instancing(&mut world);
    let c = camera(100, 50, 1, 5);
    let at_sphere = Ray::new(Vec3::zero(), Vec3::new(0, 0, -U), 0);
    assert_eq!(c.ray_color(&at_sphere, &world, s, 5, &mut tape()), Vec3::zero());
}

#[test]
fn pixel_is_the_mean_of_its_samples() {
    let (world, root) = one_sphere();
    let c = camera(100, 50, 4, 2);
    let mut sampler = tape();
    assert_eq!(c.pixel_color(50, 25, &world, root, &mut sampler), Vec3::new(U / 4, 7 * U / 20, U / 2));
    assert_eq!(c.pixel_color(0, 0, &world, root, &mut sampler), sky());
}

#[test]
fn sphere_in_the_middle_is_darker_than_the_sky_but_not_black() {
    let (world, root) = one_sphere();
    let c = camera(9, 9, 1, 2);
    let mut sampler = tape();
    let buff = c.render_sub(&world, root, 0, 9, 0, 9, &mut sampler);
    assert_eq!(buff.len(), 81);
    let center = buff[4 * 9 + 4];
    let brightness = |c: Vec3| c.x + c.y + c.z;
    assert_ne!(center, Vec3::zero());
    assert!(center.x > 0 && center.y > 0 && center.z > 0);
    for corner in [buff[0], buff[8], buff[72], buff[80]] {
        assert_eq!(corner, sky());
        assert!(brightness(center) < brightness(corner));
        assert!(center.x < corner.x && center.y < corner.y && center.z < corner.z);
    }
    // at a depth of one hit the sphere is black
    let shallow = camera(9, 9, 1, 1);
    let buff = shallow.render_sub(&world, root, 0, 9, 0, 9, &mut tape());
    assert_eq!(buff[4 * 9 + 4], Vec3::zero());
    assert_eq!(buff[0], sky());
}

#[test]
fn tile_is_rendered_row_by_row_and_cut_at_the_image() {
    let (world, root) = one_sphere();
    let c = camera(9, 9, 1, 2);
    let whole = c.render_sub(&world, root, 0, 9, 0, 9, &mut tape());
    let part = c.render_sub(&world, root, 3, 6, 4, 6, &mut tape());
    assert_eq!(part.len(), 6);
    for n in 0..6 {
        let (i, j) = (3 + n % 3, 4 + n / 3);
        assert_eq!(part[n], whole[j * 9 + i]);
    }
    let over = c.render_sub(&world, root, 7, 20, 8, 20, &mut tape());
    assert_eq!(over, vec![whole[8 * 9 + 7], whole[8 * 9 + 8]]);
    assert!(c.render_sub(&world, root, 9, 20, 0, 9, &mut tape()).is_empty());
    assert!(c.render_sub(&world, root, 5, 5, 0, 9, &mut tape()).is_empty());
    assert!(c.render_sub(&world, root, 6, 5, 0, 9, &mut tape()).is_empty());
    assert!(c.render_sub(&world, root, 0, 9, 9, 12, &mut tape()).is_empty());
}

#[test]
fn chunks_are_the_extent_over_the_parts_rounded_up() {
    assert_eq!(chunk_size(100, 20), 5);
    assert_eq!(chunk_size(101, 20), 6);
    assert_eq!(chunk_size(30, 20), 2);
    assert_eq!(chunk_size(7, 20), 1);
    assert_eq!(chunk_size(0, 20), 0);
    assert_eq!(chunk_size(u32::MAX, 20), 214_748_365);
    assert_eq!(chunk_size(u32::MAX, 1), u32::MAX);
    assert_eq!(cut(100, 20, 0), 0);
    assert_eq!(cut(100, 20, 3), 15);
    assert_eq!(cut(100, 20, 20), 100);
    assert_eq!(cut(30, 20, 14), 28);
    assert_eq!(cut(30, 20, 15), 30);
    assert_eq!(cut(30, 20, 19), 30);
    assert_eq!(cut(u32::MAX, 20, 20), u32::MAX);
}

fn covered_once(width: u32, height: u32) {
    let mut count = vec![0u8; (width * height) as usize];
    for j in 0..HEIGHT_PARTITION {
        for i in 0..WIDTH_PARTITION {
            let t = tile_of(width, height, i, j);
            assert!(t.x_min <= t.x_max && t.x_max <= width);
            assert!(t.y_min <= t.y_max && t.y_max <= height);
            assert_eq!(t.is_empty(), t.x_min == t.x_max || t.y_min == t.y_max);
            for y in t.y_min..t.y_max {
                for x in t.x_min..t.x_max {
                    count[(y * width + x) as usize] += 1;
                }
            }
        }
    }
    assert!(count.iter().all(|&c| c == 1), "{} by {}", width, height);
}

#[test]
fn tiles_cover_every_pixel_once() {
    for (width, height) in [(100, 60), (30, 7), (1, 1), (20, 20), (21, 19), (400, 225), (0, 5), (39, 41)] {
        covered_once(width, height);
    }
}

#[test]
fn tile_of_a_given_column_and_row() {
    assert_eq!(tile_of(100, 60, 0, 0), Tile { x_min: 0, x_max: 5, y_min: 0, y_max: 3 });
    assert_eq!(tile_of(100, 60, 19, 19), Tile { x_min: 95, x_max: 100, y_min: 57, y_max: 60 });
    assert_eq!(tile_of(30, 7, 14, 6), Tile { x_min: 28, x_max: 30, y_min: 6, y_max: 7 });
    let beyond = tile_of(30, 7, 15, 7);
    assert_eq!(beyond, Tile { x_min: 30, x_max: 30, y_min: 7, y_max: 7 });
    assert!(beyond.is_empty());
    let t = tile_of(101, 60, 16, 2);
    assert_eq!(t, Tile { x_min: 96, x_max: 101, y_min: 6, y_max: 9 });
    assert_eq!((t.width(), t.height()), (5, 3));
}

#[test]
fn scheduler_never_has_more_than_the_limit_in_flight() {
    let mut s = Scheduler::new();
    let mut launched = Vec::new();
    let mut waits = 0;
    loop {
        match s.next() {
            Step::Launch(i, j) => {
                launched.push((i, j));
                assert!(s.outstanding <= THREAD_LIMIT);
            }
            Step::Wait => {
                waits += 1;
                assert!(s.outstanding == THREAD_LIMIT || s.launched == TILE_COUNT);
                assert_eq!(s.next(), Step::Wait);
                s.complete();
            }
            Step::Finished => break,
        }
    }
    assert_eq!(launched.len(), 400);
    assert_eq!(waits, 400);
    assert_eq!(s.outstanding, 0);
    assert_eq!(s.next(), Step::Finished);
    for (n, &(i, j)) in launched.iter().enumerate() {
        assert_eq!((i, j), (n as u32 % 20, n as u32 / 20));
    }
    assert_eq!(TILE_COUNT, WIDTH_PARTITION * HEIGHT_PARTITION);
}

#[test]
fn scheduler_hands_out_as_soon_as_one_is_finished() {
    let mut s = Scheduler::new();
    for n in 0..20 {
        assert_eq!(s.next(), Step::Launch(n, 0));
    }
    assert_eq!(s.next(), Step::Wait);
    assert_eq!((s.launched, s.outstanding), (20, 20));
    s.complete();
    assert_eq!(s.next(), Step::Launch(0, 1));
    assert_eq!(s.next(), Step::Wait);
    s.complete();
    s.complete();
    assert_eq!(s.next(), Step::Launch(1, 1));
    assert_eq!(s.next(), Step::Launch(2, 1));
    assert_eq!(s.next(), Step::Wait);
}

#[test]
fn gamma_is_the_square_root() {
    assert_eq!(linear_to_gamma(U / 4), U / 2);
    assert_eq!(linear_to_gamma(U), U);
    assert_eq!(linear_to_gamma(4 * U), 2 * U);
    assert_eq!(linear_to_gamma(0), 0);
    assert_eq!(linear_to_gamma(-U), 0);
}

#[test]
fn channels_are_scaled_to_bytes() {
    assert_eq!(encode_channel(U / 4), 128);
    assert_eq!(encode_channel(U), 255);
    assert_eq!(encode_channel(100 * U), 255);
    assert_eq!(encode_channel(0), 0);
    assert_eq!(encode_channel(-U), 0);
    assert_eq!(encode_channel(U / 16), 64);
    assert_eq!(encode_channel(1), 0);
    assert_eq!(encode_channel(2), 1);
}

#[test]
fn frame_starts_black_and_takes_pixels() {
    let mut img = Frame::new(4, 3).unwrap();
    assert_eq!((img.width(), img.height()), (4, 3));
    for y in 0..3 {
        for x in 0..4 {
            assert_eq!(img.get(x, y), Some((0, 0, 0)));
        }
    }
    assert_eq!(img.get(4, 0), None);
    assert_eq!(img.get(0, 3), None);
    write_color(Vec3::new(U, U / 4, 0), &mut img, 2, 1);
    assert_eq!(img.get(2, 1), Some((255, 128, 0)));
    assert_eq!(img.get(1, 2), Some((0, 0, 0)));
    assert_eq!((img.width(), img.height()), (4, 3));
    let bytes = img.into_bytes();
    assert_eq!(bytes.len(), 36);
    let at = 3 * (1 * 4 + 2);
    assert_eq!(&bytes[at..at + 3], &[255, 128, 0]);
    assert_eq!(bytes.iter().filter(|&&b| b != 0).count(), 2);
}

#[test]
fn frame_too_large_to_hold_is_refused() {
    assert!(Frame::new(u32::MAX, u32::MAX).is_none());
    assert!(Frame::new(0, 0).is_some());
    assert!(Frame::new(0, u32::MAX).is_some());
}

#[test]
fn finished_tile_is_copied_into_its_place() {
    let mut img = Frame::new(5, 4).unwrap();
    let white = Vec3::new(U, U, U);
    let grey = Vec3::new(U / 4, U / 4, U / 4);
    let buff = vec![white, grey, grey, white, white, white];
    assert!(flush_tile(&buff, 1, 4, 2, 4, &mut img));
    let expected = |x: u32, y: u32| -> (u8, u8, u8) {
        if (1..4).contains(&x) && (2..4).contains(&y) {
            if (x, y) == (2, 2) || (x, y) == (3, 2) {
                (128, 128, 128)
            } else {
                (255, 255, 255)
            }
        } else {
            (0, 0, 0)
        }
    };
    for y in 0..4 {
        for x in 0..5 {
            assert_eq!(img.get(x, y), Some(expected(x, y)), "x = {}, y = {}", x, y);
        }
    }
}

#[test]
fn tile_that_does_not_fit_is_not_copied() {
    let mut img = Frame::new(5, 4).unwrap();
    let white = Vec3::new(U, U, U);
    assert!(!flush_tile(&vec![white; 6], 3, 6, 2, 4, &mut img));
    assert!(!flush_tile(&vec![white; 6], 1, 4, 3, 5, &mut img));
    assert!(!flush_tile(&vec![white; 5], 1, 4, 2, 4, &mut img));
    assert!(!flush_tile(&vec![white; 7], 1, 4, 2, 4, &mut img));
    assert!(!flush_tile(&vec![white; 6], 4, 1, 2, 4, &mut img));
    assert!(flush_tile(&Vec::new(), 2, 2, 0, 4, &mut img));
    assert!(flush_tile(&Vec::new(), 0, 5, 4, 4, &mut img));
    assert!(img.into_bytes().iter().all(|&b| b == 0));
}

#[test]
fn rendered_tile_ends_up_in_the_image() {
    let (world, root) = one_sphere();
    let c = camera(9, 9, 1, 2);
    let mut img = Frame::new(9, 9).unwrap();
    for j in 0..HEIGHT_PARTITION {
        for i in 0..WIDTH_PARTITION {
            let t = tile_of(9, 9, i, j);
            if !t.is_empty() {
                let buff = c.render_sub(&world, root, t.x_min, t.x_max, t.y_min, t.y_max, &mut tape());
                assert!(flush_tile(&buff, t.x_min, t.x_max, t.y_min, t.y_max, &mut img));
            }
        }
    }
    // the sky is (0.5, 0.7, 1), the sphere half of it
    assert_eq!(img.get(0, 0), Some((181, 214, 255)));
    assert_eq!(img.get(8, 8), Some((181, 214, 255)));
    assert_eq!(img.get(4, 4), Some((128, 151, 181)));
}

#[test]
fn frame_buffer_index_counts_rows_from_the_top() {
    assert_eq!(get_index(4, 3, 0, 0), 8);
    assert_eq!(get_index(4, 3, 3, 2), 3);
    assert_eq!(get_index(4, 3, 1, 1), 5);
    assert_eq!(get_index(1, 1, 0, 0), 0);
    let mut seen = vec![false; 12];
    for y in 0..3 {
        for x in 0..4 {
            let at = get_index(4, 3, x, y);
            assert!(!seen[at]);
            seen[at] = true;
        }
    }
}

#[test]
fn buffers_to_clear_and_handles() {
    assert!(Buffer::Color.clears_color() && !Buffer::Color.clears_depth());
    assert!(!Buffer::Depth.clears_color() && Buffer::Depth.clears_depth());
    assert!(Buffer::Both.clears_color() && Buffer::Both.clears_depth());
    assert_ne!(Primitive::Line, Primitive::Triangle);
    assert_eq!(PosBufId(3).0, 3);
    assert_eq!(IndBufId(4).0, 4);
    assert_eq!(ColBufId(5).0, 5);
}

#[test]
fn camera_from_degrees_takes_the_tangents_itself() {
    use_degrees();
}

fn use_degrees() {
    let c = Camera::new(
        100,
        50,
        4,
        10,
        90 * U,
        Vec3::zero(),
        Vec3::new(0, 0, -U),
        Vec3::new(0, U, 0),
        20 * U,
        2 * U,
        sky(),
    );
    let same = Camera::from_tangents(
        100,
        50,
        4,
        10,
        90 * U,
        raytracer::scalar::tangent(45 * U),
        Vec3::zero(),
        Vec3::new(0, 0, -U),
        Vec3::new(0, U, 0),
        20 * U,
        raytracer::scalar::tangent(10 * U),
        2 * U,
        sky(),
    );
    assert_eq!(c, same);
    // a field of view of a right angle: the plane of focus is as high as twice its distance
    assert!((c.pixel_delta_v.y + 8_000).abs() <= 2, "{}", c.pixel_delta_v.y);
    assert!((c.pixel_delta_u.x - 8_000).abs() <= 2, "{}", c.pixel_delta_u.x);
    // the lens: 2 · tan 10°
    assert!((c.defocus_disk_u.x - 35_265).abs() <= 5, "{}", c.defocus_disk_u.x);
}

#[test]
fn camera_with_a_closed_lens_and_a_right_angle_of_view() {
    let c = Camera::new(
        2,
        2,
        1,
        5,
        90 * U,
        Vec3::zero(),
        Vec3::new(0, 0, -U),
        Vec3::new(0, U, 0),
        0,
        U,
        sky(),
    );
    assert_eq!(c.camera_center, Vec3::zero());
    assert_eq!(c.pixel_delta_u, Vec3::new(U, 0, 0));
    assert_eq!(c.pixel_delta_v, Vec3::new(0, -U, 0));
    assert_eq!(c.pixel_zero_loc, Vec3::new(-U / 2, U / 2, -U));
    assert_eq!(c.aspect_ratio, U);
    assert_eq!(c.pixel_samples_scale, U);
    assert_eq!(c.defocus_disk_u, Vec3::zero());
    assert_eq!(c.defocus_disk_v, Vec3::zero());
    assert_eq!((c.width, c.height, c.max_depth), (2, 2, 5));
    assert_eq!(c.background, sky());
}

#[test]
fn one_allowed_hit_brings_black_from_a_dark_surface_and_the_sky_elsewhere() {
    let mut world = World::new();
    let grey = Lambertian::new_from_color(Vec3::new(U / 2, U / 2, U / 2), &mut world)
        .instancing(&mut world);
    let ball = Sphere::new(Vec3::new(0, 0, -U), U / 2, grey).instancing(&mut world);
    let c = camera(3, 3, 1, 1);
    let mut sampler = tape();
    let image = c.render_sub(&world, ball, 0, 3, 0, 3, &mut sampler);
    assert_eq!(image.len(), 9);
    for (n, pixel) in image.iter().enumerate() {
        if n == 4 {
            assert_eq!(*pixel, Vec3::zero());
        } else {
            assert_eq!(*pixel, sky(), "pixel {}", n);
        }
    }
}
