use raytracer::hitable::{HitRecord, Sample, World};
use raytracer::material::{
    Dielectric, Diffuselight, Isotropic, Lambertian, Material, MaterialTrait, Metal,
};
use raytracer::ray::Ray;
use raytracer::color::Frame;
use raytracer::texture::{
    CheckerTexture, ImageTexture, pixel_at, scale_byte, SolidColor, Texture, TextureTrait,
};
use raytracer::scalar::UNIT;
use raytracer::vec3::Vec3;

const U: i64 = UNIT;

fn draws(unit: Vec3, uniform: i64) -> Sample {
    Sample { unit, disk: Vec3::zero(), square: Vec3::zero(), uniform, log_uniform: 0 }
}

fn floor_hit() -> HitRecord {
    HitRecord::new(3 * U, Vec3::new(U, 0, 2 * U), Vec3::new(0, U, 0), 0, true, 11, 22)
}

fn grey() -> Vec3 {
    Vec3::new(U / 2, U / 4, U / 8)
}

#[test]
fn solid_color_is_the_same_everywhere() {
    let t = SolidColor::new(grey());
    assert_eq!(t.value(0, 0, Vec3::zero()), grey());
    assert_eq!(t.value(U, U / 2, Vec3::new(5, -7, 9)), grey());
}

#[test]
fn checker_alternates_by_the_parity_of_the_cell() {
    let mut world = World::new();
    let black = Vec3::zero();
    let white = Vec3::ones();
    // cubes of side 0.5
    let c = CheckerTexture::new_from_color(U / 2, white, black, &mut world);
    assert_eq!(c.inv_scale, 2 * U);
    assert_eq!((c.even, c.odd), (0, 1));
    let h = c.instancing(&mut world);
    assert_eq!(world.textures.len(), 3);
    let at = |x: i64, y: i64, z: i64| world.texture_value(h, 0, 0, Vec3::new(x, y, z));
    assert_eq!(at(3 * U / 10, 3 * U / 10, 3 * U / 10), white);
    assert_eq!(at(6 * U / 10, 3 * U / 10, 3 * U / 10), black);
    assert_eq!(at(6 * U / 10, 6 * U / 10, 3 * U / 10), white);
    assert_eq!(at(6 * U / 10, 6 * U / 10, 6 * U / 10), black);
    // the cell below zero is the cell -1
    assert_eq!(at(-U / 10, 3 * U / 10, 3 * U / 10), black);
    assert_eq!(at(-U / 10, -U / 10, 3 * U / 10), white);
    assert_eq!(at(-6 * U / 10, 3 * U / 10, 3 * U / 10), white);
    // the cell begins at the multiple of the side
    assert_eq!(at(U / 2 - 1, 0, 0), white);
    assert_eq!(at(U / 2, 0, 0), black);
    assert_eq!(c.pick(Vec3::new(U / 2, 0, 0)), 1);
    assert_eq!(c.value(&world, h, 0, 0, Vec3::new(U / 2, 0, 0)), black);
}

#[test]
fn checker_of_checkers() {
    let mut world = World::new();
    let red = SolidColor::new(Vec3::new(U, 0, 0)).instancing(&mut world);
    let green = SolidColor::new(Vec3::new(0, U, 0)).instancing(&mut world);
    let blue = SolidColor::new(Vec3::new(0, 0, U)).instancing(&mut world);
    let fine = CheckerTexture::new(U, red, green).instancing(&mut world);
    let coarse = CheckerTexture::new(2 * U, fine, blue).instancing(&mut world);
    let at = |x: i64| world.texture_value(coarse, 0, 0, Vec3::new(x, 0, 0));
    assert_eq!(at(U / 2), Vec3::new(U, 0, 0));
    assert_eq!(at(3 * U / 2), Vec3::new(0, U, 0));
    assert_eq!(at(5 * U / 2), Vec3::new(0, 0, U));
    assert_eq!(at(7 * U / 2), Vec3::new(0, 0, U));
    assert_eq!(at(9 * U / 2), Vec3::new(U, 0, 0));
}

#[test]
fn texture_without_an_entry_is_black() {
    let world = World::new();
    assert_eq!(world.texture_value(0, 0, 0, Vec3::zero()), Vec3::zero());
    assert_eq!(world.texture_value(99, 0, 0, Vec3::zero()), Vec3::zero());
}

#[test]
fn lambertian_scatters_along_normal_plus_draw() {
    let mut world = World::new();
    let m = Lambertian::new_from_color(grey(), &mut world);
    assert!(matches!(
        &world.textures[m.tex],
        Texture::Solid(SolidColor { albedo }) if *albedo == grey()
    ));
    let ray_in = Ray::new(Vec3::new(U, 3 * U, 2 * U), Vec3::new(0, -U, 0), 777);
    let (attenuation, out) = m
        .scatter(&world, &ray_in, &floor_hit(), &draws(Vec3::new(U, 0, 0), 0))
        .unwrap();
    assert_eq!(attenuation, grey());
    assert_eq!(out.origin(), Vec3::new(U, 0, 2 * U));
    assert_eq!(out.direction(), Vec3::new(U, U, 0));
    assert_eq!(out.time(), 777);
    // a draw that cancels the normal leaves the normal
    let (_, out) = m
        .scatter(&world, &ray_in, &floor_hit(), &draws(Vec3::new(0, -U, 0), 0))
        .unwrap();
    assert_eq!(out.direction(), Vec3::new(0, U, 0));
    assert_eq!(Lambertian::new(5).tex, 5);
}

#[test]
fn metal_mirrors_and_absorbs_what_points_inwards() {
    let m = Metal::new(grey(), 0);
    let ray_in = Ray::new(Vec3::new(0, U, 2 * U), Vec3::new(U, -U, 0), 5);
    let world = World::new();
    let (attenuation, out) =
        m.scatter(&world, &ray_in, &floor_hit(), &draws(Vec3::new(U, 0, 0), 0)).unwrap();
    assert_eq!(attenuation, grey());
    assert_eq!(out.origin(), Vec3::new(U, 0, 2 * U));
    assert_eq!(out.direction(), Vec3::new(70_710, 70_710, 0));
    assert_eq!(out.time(), 5);
    // a ray that comes from below is mirrored downwards, into the surface
    let from_below = Ray::new(Vec3::new(0, -U, 2 * U), Vec3::new(U, U, 0), 5);
    assert_eq!(m.scatter(&world, &from_below, &floor_hit(), &draws(Vec3::new(U, 0, 0), 0)), None);
}

#[test]
fn metal_fuzz_blurs_the_mirror() {
    let m = Metal::new(grey(), U / 2);
    let ray_in = Ray::new(Vec3::new(0, U, 2 * U), Vec3::new(U, -U, 0), 5);
    let world = World::new();
    let (_, out) = m.scatter(&world, &ray_in, &floor_hit(), &draws(Vec3::new(0, 0, U), 0)).unwrap();
    assert_eq!(out.direction(), Vec3::new(70_710, 70_710, U / 2));
    // enough blur downwards turns the ray into the surface
    let rough = Metal::new(grey(), 2 * U);
    assert_eq!(rough.scatter(&world, &ray_in, &floor_hit(), &draws(Vec3::new(0, -U, 0), 0)), None);
}

#[test]
fn dielectric_lets_through_or_reflects_by_the_draw() {
    let m = Dielectric::new(3 * U / 2);
    let ray_in = Ray::new(Vec3::new(U, 3 * U, 2 * U), Vec3::new(0, -3 * U, 0), 9);
    // reflectance 0.04 at normal incidence
    let world = World::new();
    let (attenuation, out) =
        m.scatter(&world, &ray_in, &floor_hit(), &draws(Vec3::zero(), U / 2)).unwrap();
    assert_eq!(attenuation, Vec3::ones());
    assert_eq!(out.origin(), Vec3::new(U, 0, 2 * U));
    assert_eq!(out.direction(), Vec3::new(0, -U, 0));
    assert_eq!(out.time(), 9);
    let (_, back) = m.scatter(&world, &ray_in, &floor_hit(), &draws(Vec3::zero(), 3_999)).unwrap();
    assert_eq!(back.direction(), Vec3::new(0, U, 0));
    let (_, through) =
        m.scatter(&world, &ray_in, &floor_hit(), &draws(Vec3::zero(), 4_000)).unwrap();
    assert_eq!(through.direction(), Vec3::new(0, -U, 0));
}

#[test]
fn dielectric_bends_towards_the_normal_on_the_way_in() {
    let m = Dielectric::new(3 * U / 2);
    // 45 degrees onto the floor
    let ray_in = Ray::new(Vec3::new(0, U, 2 * U), Vec3::new(U, -U, 0), 0);
    let world = World::new();
    let (_, out) = m.scatter(&world, &ray_in, &floor_hit(), &draws(Vec3::zero(), U - 1)).unwrap();
    let d = out.direction();
    assert!(d.y < 0);
    assert!(d.x > 0);
    // sin of the new angle is sin 45° / 1.5 = 0.4714
    assert!((d.x - 47_140).abs() <= 3, "x = {}", d.x);
    assert!((d.y + 88_191).abs() <= 3, "y = {}", d.y);
    assert_eq!(d.z, 0);
}

#[test]
fn diffuse_light_emits_and_absorbs() {
    let mut world = World::new();
    let light = Diffuselight::new_from_color(Vec3::new(4 * U, 4 * U, 4 * U), &mut world);
    assert_eq!(light.emitted(&world, 0, 0, Vec3::zero()), Vec3::new(4 * U, 4 * U, 4 * U));
    let m = Material::Diffuselight(light);
    let ray_in = Ray::new(Vec3::new(U, 3 * U, 2 * U), Vec3::new(0, -U, 0), 0);
    assert_eq!(m.scatter(&world, &ray_in, &floor_hit(), &draws(Vec3::new(U, 0, 0), 0)), None);
    assert_eq!(m.emitted(&world, 0, 0, Vec3::zero()), Vec3::new(4 * U, 4 * U, 4 * U));
    assert_eq!(Diffuselight::new(3).tex, 3);
}

#[test]
fn other_materials_emit_nothing() {
    let mut world = World::new();
    let matt = Lambertian::new_from_color(grey(), &mut world);
    let all = [
        Material::Lambertian(matt),
        Material::Metal(Metal::new(grey(), 0)),
        Material::Dielectric(Dielectric::new(3 * U / 2)),
        Material::Isotropic(Isotropic::new(matt.tex)),
    ];
    for m in all {
        assert_eq!(m.emitted(&world, 5, 6, Vec3::new(1, 2, 3)), Vec3::zero());
    }
}

#[test]
fn isotropic_scatters_in_the_drawn_direction() {
    let mut world = World::new();
    let m = Isotropic::new_from_color(grey(), &mut world);
    let ray_in = Ray::new(Vec3::new(U, 3 * U, 2 * U), Vec3::new(0, -U, 0), 3);
    let (attenuation, out) = m
        .scatter(&world, &ray_in, &floor_hit(), &draws(Vec3::new(0, 0, -U), 0))
        .unwrap();
    assert_eq!(attenuation, grey());
    assert_eq!(out.origin(), Vec3::new(U, 0, 2 * U));
    assert_eq!(out.direction(), Vec3::new(0, 0, -U));
    assert_eq!(out.time(), 3);
}

#[test]
fn material_scatter_dispatches_on_the_kind() {
    let mut world = World::new();
    let matt = Lambertian::new_from_color(grey(), &mut world);
    let h = matt.instancing(&mut world);
    assert_eq!(h, 0);
    assert_eq!(Metal::new(grey(), 0).instancing(&mut world), 1);
    assert_eq!(Dielectric::new(U).instancing(&mut world), 2);
    assert_eq!(Diffuselight::new(0).instancing(&mut world), 3);
    assert_eq!(Isotropic::new(0).instancing(&mut world), 4);
    let ray_in = Ray::new(Vec3::new(U, 3 * U, 2 * U), Vec3::new(0, -U, 0), 0);
    let sample = draws(Vec3::new(U, 0, 0), U / 2);
    let got: Vec<Option<(Vec3, Ray)>> = world
        .materials
        .iter()
        .map(|m| m.scatter(&world, &ray_in, &floor_hit(), &sample))
        .collect();
    assert_eq!(got[0], matt.scatter(&world, &ray_in, &floor_hit(), &sample));
    assert_eq!(got[1].unwrap().1.direction(), Vec3::new(0, U, 0));
    assert_eq!(got[2].unwrap().1.direction(), Vec3::new(0, -U, 0));
    assert_eq!(got[3], None);
    assert_eq!(got[4].unwrap().1.direction(), Vec3::new(U, 0, 0));
}

fn flag() -> Frame {
    // three columns, two rows: red, green, blue above cyan, magenta, yellow
    let bytes = vec![
        255, 0, 0, 0, 255, 0, 0, 0, 255, //
        0, 255, 255, 255, 0, 255, 255, 255, 0,
    ];
    Frame::from_raw(3, 2, bytes).unwrap()
}

#[test]
fn frame_from_bytes_needs_three_for_each_pixel() {
    let img = flag();
    assert_eq!((img.width(), img.height()), (3, 2));
    assert_eq!(img.get(0, 0), Some((255, 0, 0)));
    assert_eq!(img.get(2, 0), Some((0, 0, 255)));
    assert_eq!(img.get(1, 1), Some((255, 0, 255)));
    assert_eq!(img.get(3, 0), None);
    assert!(Frame::from_raw(3, 2, vec![0; 17]).is_none());
    assert!(Frame::from_raw(3, 2, vec![0; 19]).is_none());
    assert!(Frame::from_raw(0, 7, Vec::new()).is_some());
    assert_eq!(flag().into_bytes().len(), 18);
}

#[test]
fn picture_is_laid_out_from_the_bottom_left() {
    let t = ImageTexture::new(flag());
    let at = |u: i64, v: i64| t.value(u, v, Vec3::zero());
    let (red, green, blue) = (Vec3::new(U, 0, 0), Vec3::new(0, U, 0), Vec3::new(0, 0, U));
    let (cyan, magenta, yellow) = (Vec3::new(0, U, U), Vec3::new(U, 0, U), Vec3::new(U, U, 0));
    // v = 1 is the top row, v = 0 the bottom row
    assert_eq!(at(0, U), red);
    assert_eq!(at(U / 2, U), green);
    assert_eq!(at(U, U), blue);
    assert_eq!(at(0, 0), cyan);
    assert_eq!(at(U / 2, 0), magenta);
    assert_eq!(at(U, 0), yellow);
    // the columns change at a third and at two thirds
    assert_eq!(at(33_333, U), red);
    assert_eq!(at(33_334, U), green);
    assert_eq!(at(66_666, U), green);
    assert_eq!(at(66_667, U), blue);
    // the rows change in the middle
    assert_eq!(at(0, U / 2 + 1), red);
    assert_eq!(at(0, U / 2), cyan);
    // beyond the picture is its edge
    assert_eq!(at(-5, 2 * U), red);
    assert_eq!(at(7 * U, -U), yellow);
}

#[test]
fn picture_without_pixels_is_cyan() {
    let t = ImageTexture::new(Frame::from_raw(0, 0, Vec::new()).unwrap());
    assert_eq!(t.value(U / 2, U / 2, Vec3::zero()), Vec3::new(0, U, U));
    let t = ImageTexture::new(Frame::from_raw(0, 5, Vec::new()).unwrap());
    assert_eq!(t.value(U / 2, U / 2, Vec3::zero()), Vec3::new(0, U, U));
}

#[test]
fn picture_on_a_sphere_through_the_arena() {
    let mut world = World::new();
    let h = ImageTexture::new(flag()).instancing(&mut world);
    assert_eq!(world.texture_value(h, U / 2, U, Vec3::new(1, 2, 3)), Vec3::new(0, U, 0));
    let matt = Lambertian::new(h);
    let rec = HitRecord::new(0, Vec3::zero(), Vec3::new(0, U, 0), 0, true, U, 0);
    let ray_in = Ray::new(Vec3::new(0, U, 0), Vec3::new(0, -U, 0), 0);
    let (attenuation, _) = matt.scatter(&world, &ray_in, &rec, &draws(Vec3::new(U, 0, 0), 0)).unwrap();
    assert_eq!(attenuation, Vec3::new(U, U, 0));
}

#[test]
fn pixels_and_bytes_scale_to_the_grid() {
    assert_eq!(pixel_at(0, 10), 0);
    assert_eq!(pixel_at(U, 10), 9);
    assert_eq!(pixel_at(U - 1, 10), 9);
    assert_eq!(pixel_at(U / 10, 10), 1);
    assert_eq!(pixel_at(U / 10 - 1, 10), 0);
    assert_eq!(pixel_at(U, u32::MAX), u32::MAX - 1);
    assert_eq!(pixel_at(U, 1), 0);
    assert_eq!(scale_byte(0), 0);
    assert_eq!(scale_byte(255), U);
    assert_eq!(scale_byte(128), 50_196);
    assert_eq!(scale_byte(51), U / 5);
}
