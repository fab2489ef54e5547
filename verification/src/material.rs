//! Materials: what becomes of a ray that hits a surface.

use vstd::prelude::*;
use crate::hitable::{HitRecord, Sample, World};
use crate::ray::Ray;
use crate::texture::{SolidColor, Texture, TextureTrait};
use crate::scalar::{fdiv, fdiv_spec, UNIT};
use crate::utils::{
    fdot, fdot_spec, reflect, reflect_spec, refract, refract_spec, unit_vec, unit_vec_spec,
};
use crate::vec3::{DOT_MAX, Vec3};

verus! {

/// A matt surface; `tex` is the handle of its texture.
#[derive(Clone, Copy, Debug, PartialEq, Eq, Structural)]
pub struct Lambertian {
    pub tex: usize,
}

/// A mirror, blurred by `fuzz`.
#[derive(Clone, Copy, Debug, PartialEq, Eq, Structural)]
pub struct Metal {
    pub albedo: Vec3,
    pub fuzz: i64,
}

/// Glass and the like.
#[derive(Clone, Copy, Debug, PartialEq, Eq, Structural)]
pub struct Dielectric {
    pub refraction_index: i64,
}

/// A light; `tex` is the handle of the texture that it emits.
#[derive(Clone, Copy, Debug, PartialEq, Eq, Structural)]
pub struct Diffuselight {
    pub tex: usize,
}

/// The inside of a medium, which scatters to all sides alike.
#[derive(Clone, Copy, Debug, PartialEq, Eq, Structural)]
pub struct Isotropic {
    pub tex: usize,
}

/// Any material.
#[derive(Clone, Copy, Debug, PartialEq, Eq, Structural)]
pub enum Material {
    Lambertian(Lambertian),
    Metal(Metal),
    Dielectric(Dielectric),
    Diffuselight(Diffuselight),
    Isotropic(Isotropic),
}

/// What every material can do: scatter a ray that hit it, or absorb it;
/// give off light of its own; and take its place among the materials of a
/// scene.
pub trait MaterialTrait: Sized {
    /// What becomes of the ray `r` at the hit `rec`: nothing, where the
    /// material absorbs it, or the colour that dims it and the ray that goes
    /// on.
    spec fn scatter_spec(
        &self,
        textures: Seq<Texture>,
        r: Ray,
        rec: HitRecord,
        sample: Sample,
    ) -> Option<(Vec3, Ray)>;

    /// The light that the material gives off by itself at the point `p`
    /// with the surface coordinates `u` and `v`.
    spec fn emitted_spec(&self, textures: Seq<Texture>, u: i64, v: i64, p: Vec3) -> Vec3;

    /// The material as an entry of the arena of materials.
    spec fn as_material(self) -> Material;

    fn scatter(&self, world: &World, r: &Ray, hit_record: &HitRecord, sample: &Sample) -> (s:
        Option<(Vec3, Ray)>)
        requires
            world.wf(),
            sample.wf(),
            r.b_direction.within(DOT_MAX as int),
        ensures
            s == self.scatter_spec(world.textures@, *r, *hit_record, *sample),
    ;

    fn emitted(&self, world: &World, u: i64, v: i64, p: Vec3) -> (c: Vec3)
        requires
            world.wf(),
        ensures
            c == self.emitted_spec(world.textures@, u, v, p),
    ;

    /// Puts the material into the arena and gives its handle.
    fn instancing(self, world: &mut World) -> (h: usize)
        requires
            old(world).wf(),
        ensures
            final(world).wf(),
            h == old(world).materials@.len(),
            final(world).materials@ == old(world).materials@.push(self.as_material()),
            final(world).shapes == old(world).shapes,
            final(world).textures == old(world).textures,
    ;
}

impl Lambertian {
    pub fn new(tex: usize) -> (m: Self)
        ensures
            m.tex == tex,
    {
        Self { tex }
    }

    /// A matt surface of one colour, which is added to the textures.
    pub fn new_from_color(albedo: Vec3, world: &mut World) -> (m: Lambertian)
        requires
            old(world).wf(),
        ensures
            final(world).wf(),
            m.tex == old(world).textures@.len(),
            final(world).textures@ == old(world).textures@.push(
                Texture::Solid(SolidColor { albedo }),
            ),
            final(world).shapes == old(world).shapes,
            final(world).materials == old(world).materials,
    {
        Lambertian { tex: SolidColor::new(albedo).instancing(world) }
    }
}

impl MaterialTrait for Lambertian {
    /// The ray goes on from the point of the hit along the normal plus the
    /// drawn unit vector, or along the normal where the two cancel; it is
    /// dimmed by the colour of the texture.
    open spec fn scatter_spec(
        &self,
        textures: Seq<Texture>,
        r: Ray,
        rec: HitRecord,
        sample: Sample,
    ) -> Option<(Vec3, Ray)> {
        let sum = rec.normal.sum_spec(sample.unit);
        let direction = if sum == (Vec3 { x: 0, y: 0, z: 0 }) {
            rec.normal
        } else {
            sum
        };
        Some(
            (
                World::texture_value_spec(textures, self.tex as int, rec.u, rec.v, rec.point),
                Ray { a_origin: rec.point, b_direction: direction, time: r.time },
            ),
        )
    }

    open spec fn emitted_spec(&self, textures: Seq<Texture>, u: i64, v: i64, p: Vec3) -> Vec3 {
        Vec3 { x: 0, y: 0, z: 0 }
    }

    open spec fn as_material(self) -> Material {
        Material::Lambertian(self)
    }

    fn scatter(&self, world: &World, r: &Ray, hit_record: &HitRecord, sample: &Sample) -> (s:
        Option<(Vec3, Ray)>)
        ensures
            s.is_some(),
    {
        let mut scatter_direction: Vec3 = hit_record.normal + sample.unit;
        if scatter_direction.near_zero() {
            scatter_direction = hit_record.normal;
        }
        let scattered = Ray::new(hit_record.point, scatter_direction, r.time);
        let attenuation = world.texture_value(
            self.tex,
            hit_record.u,
            hit_record.v,
            hit_record.point,
        );
        Some((attenuation, scattered))
    }

    fn emitted(&self, world: &World, u: i64, v: i64, p: Vec3) -> (c: Vec3) {
        Vec3::zero()
    }

    fn instancing(self, world: &mut World) -> (h: usize) {
        world.add_material(Material::Lambertian(self))
    }
}

impl Metal {
    pub fn new(albedo: Vec3, fuzz: i64) -> (m: Metal)
        ensures
            m.albedo == albedo,
            m.fuzz == fuzz,
    {
        Metal { albedo, fuzz }
    }
}

impl MaterialTrait for Metal {
    /// The ray is mirrored at the surface and blurred by `fuzz` times the
    /// drawn unit vector. It is absorbed where the result points into the
    /// surface, and where the mirrored direction is beyond what can be
    /// brought to unit length.
    open spec fn scatter_spec(
        &self,
        textures: Seq<Texture>,
        r: Ray,
        rec: HitRecord,
        sample: Sample,
    ) -> Option<(Vec3, Ray)> {
        let mirrored = reflect_spec(r.b_direction, rec.normal);
        let reflected = unit_vec_spec(mirrored).sum_spec(
            unit_vec_spec(sample.unit).scale_spec(self.fuzz as int),
        );
        if !mirrored.within(DOT_MAX as int) || !(fdot_spec(reflected, rec.normal) > 0) {
            None
        } else {
            Some(
                (
                    self.albedo,
                    Ray { a_origin: rec.point, b_direction: reflected, time: r.time },
                ),
            )
        }
    }

    open spec fn emitted_spec(&self, textures: Seq<Texture>, u: i64, v: i64, p: Vec3) -> Vec3 {
        Vec3 { x: 0, y: 0, z: 0 }
    }

    open spec fn as_material(self) -> Material {
        Material::Metal(self)
    }

    fn scatter(&self, world: &World, r: &Ray, hit_record: &HitRecord, sample: &Sample) -> (s:
        Option<(Vec3, Ray)>) {
        let mirrored: Vec3 = reflect(r.direction(), hit_record.normal);
        if !mirrored.is_within(DOT_MAX) {
            return None;
        }
        let reflected: Vec3 = unit_vec(mirrored) + unit_vec(sample.unit) * self.fuzz;
        if fdot(reflected, hit_record.normal) > 0 {
            Some((self.albedo, Ray::new(hit_record.point, reflected, r.time())))
        } else {
            None
        }
    }

    fn emitted(&self, world: &World, u: i64, v: i64, p: Vec3) -> (c: Vec3) {
        Vec3::zero()
    }

    fn instancing(self, world: &mut World) -> (h: usize) {
        world.add_material(Material::Metal(self))
    }
}

impl Dielectric {
    /// The ratio of the refractive indices on the way of a ray that meets
    /// the surface from the front or from the back.
    pub open spec fn ratio(&self, front_face: bool) -> int {
        if front_face {
            fdiv_spec(UNIT as int, self.refraction_index as int)
        } else {
            self.refraction_index as int
        }
    }

    pub fn new(refraction_index: i64) -> (m: Dielectric)
        ensures
            m.refraction_index == refraction_index,
    {
        Dielectric { refraction_index }
    }
}

impl MaterialTrait for Dielectric {
    /// The ray is let through, bent, or thrown back, as [`refract_spec`]
    /// decides with the drawn number; nothing is absorbed.
    open spec fn scatter_spec(
        &self,
        textures: Seq<Texture>,
        r: Ray,
        rec: HitRecord,
        sample: Sample,
    ) -> Option<(Vec3, Ray)> {
        Some(
            (
                Vec3 { x: UNIT, y: UNIT, z: UNIT },
                Ray {
                    a_origin: rec.point,
                    b_direction: refract_spec(
                        unit_vec_spec(r.b_direction),
                        rec.normal,
                        self.ratio(rec.front_face),
                        sample.uniform as int,
                    ),
                    time: r.time,
                },
            ),
        )
    }

    open spec fn emitted_spec(&self, textures: Seq<Texture>, u: i64, v: i64, p: Vec3) -> Vec3 {
        Vec3 { x: 0, y: 0, z: 0 }
    }

    open spec fn as_material(self) -> Material {
        Material::Dielectric(self)
    }

    fn scatter(&self, world: &World, r: &Ray, hit_record: &HitRecord, sample: &Sample) -> (s:
        Option<(Vec3, Ray)>)
        ensures
            s.is_some(),
    {
        let attenuation = Vec3::new(UNIT, UNIT, UNIT);
        let ratio: i64 = if hit_record.front_face {
            fdiv(UNIT, self.refraction_index)
        } else {
            self.refraction_index
        };
        let refracted: Vec3 = refract(
            unit_vec(r.direction()),
            hit_record.normal,
            ratio,
            sample.uniform,
        );
        Some((attenuation, Ray::new(hit_record.point, refracted, r.time())))
    }

    fn emitted(&self, world: &World, u: i64, v: i64, p: Vec3) -> (c: Vec3) {
        Vec3::zero()
    }

    fn instancing(self, world: &mut World) -> (h: usize) {
        world.add_material(Material::Dielectric(self))
    }
}

impl Diffuselight {
    pub fn new(tex: usize) -> (m: Self)
        ensures
            m.tex == tex,
    {
        Self { tex }
    }

    /// A light of one colour, which is added to the textures.
    pub fn new_from_color(emit: Vec3, world: &mut World) -> (m: Self)
        requires
            old(world).wf(),
        ensures
            final(world).wf(),
            m.tex == old(world).textures@.len(),
            final(world).textures@ == old(world).textures@.push(
                Texture::Solid(SolidColor { albedo: emit }),
            ),
            final(world).shapes == old(world).shapes,
            final(world).materials == old(world).materials,
    {
        Self { tex: SolidColor::new(emit).instancing(world) }
    }
}

impl MaterialTrait for Diffuselight {
    /// A light absorbs every ray.
    open spec fn scatter_spec(
        &self,
        textures: Seq<Texture>,
        r: Ray,
        rec: HitRecord,
        sample: Sample,
    ) -> Option<(Vec3, Ray)> {
        None
    }

    /// The light that the surface gives off at the point: its texture.
    open spec fn emitted_spec(&self, textures: Seq<Texture>, u: i64, v: i64, p: Vec3) -> Vec3 {
        World::texture_value_spec(textures, self.tex as int, u, v, p)
    }

    open spec fn as_material(self) -> Material {
        Material::Diffuselight(self)
    }

    fn scatter(&self, world: &World, r: &Ray, hit_record: &HitRecord, sample: &Sample) -> (s:
        Option<(Vec3, Ray)>) {
        None
    }

    fn emitted(&self, world: &World, u: i64, v: i64, p: Vec3) -> (c: Vec3) {
        world.texture_value(self.tex, u, v, p)
    }

    fn instancing(self, world: &mut World) -> (h: usize) {
        world.add_material(Material::Diffuselight(self))
    }
}

impl Isotropic {
    pub fn new(tex: usize) -> (m: Self)
        ensures
            m.tex == tex,
    {
        Self { tex }
    }

    /// A medium of one colour, which is added to the textures.
    pub fn new_from_color(albedo: Vec3, world: &mut World) -> (m: Self)
        requires
            old(world).wf(),
        ensures
            final(world).wf(),
            m.tex == old(world).textures@.len(),
            final(world).textures@ == old(world).textures@.push(
                Texture::Solid(SolidColor { albedo }),
            ),
            final(world).shapes == old(world).shapes,
            final(world).materials == old(world).materials,
    {
        Self { tex: SolidColor::new(albedo).instancing(world) }
    }
}

impl MaterialTrait for Isotropic {
    /// The ray goes on from the point of the hit in the drawn direction,
    /// dimmed by the colour of the texture.
    open spec fn scatter_spec(
        &self,
        textures: Seq<Texture>,
        r: Ray,
        rec: HitRecord,
        sample: Sample,
    ) -> Option<(Vec3, Ray)> {
        Some(
            (
                World::texture_value_spec(textures, self.tex as int, rec.u, rec.v, rec.point),
                Ray {
                    a_origin: rec.point,
                    b_direction: unit_vec_spec(sample.unit),
                    time: r.time,
                },
            ),
        )
    }

    open spec fn emitted_spec(&self, textures: Seq<Texture>, u: i64, v: i64, p: Vec3) -> Vec3 {
        Vec3 { x: 0, y: 0, z: 0 }
    }

    open spec fn as_material(self) -> Material {
        Material::Isotropic(self)
    }

    fn scatter(&self, world: &World, r: &Ray, hit_record: &HitRecord, sample: &Sample) -> (s:
        Option<(Vec3, Ray)>)
        ensures
            s.is_some(),
    {
        let scattered = Ray::new(hit_record.point, unit_vec(sample.unit), r.time());
        let attenuation = world.texture_value(
            self.tex,
            hit_record.u,
            hit_record.v,
            hit_record.point,
        );
        Some((attenuation, scattered))
    }

    fn emitted(&self, world: &World, u: i64, v: i64, p: Vec3) -> (c: Vec3) {
        Vec3::zero()
    }

    fn instancing(self, world: &mut World) -> (h: usize) {
        world.add_material(Material::Isotropic(self))
    }
}

impl MaterialTrait for Material {
    open spec fn scatter_spec(
        &self,
        textures: Seq<Texture>,
        r: Ray,
        rec: HitRecord,
        sample: Sample,
    ) -> Option<(Vec3, Ray)> {
        match self {
            Material::Lambertian(m) => m.scatter_spec(textures, r, rec, sample),
            Material::Metal(m) => m.scatter_spec(textures, r, rec, sample),
            Material::Dielectric(m) => m.scatter_spec(textures, r, rec, sample),
            Material::Diffuselight(m) => m.scatter_spec(textures, r, rec, sample),
            Material::Isotropic(m) => m.scatter_spec(textures, r, rec, sample),
        }
    }

    open spec fn emitted_spec(&self, textures: Seq<Texture>, u: i64, v: i64, p: Vec3) -> Vec3 {
        match self {
            Material::Lambertian(m) => m.emitted_spec(textures, u, v, p),
            Material::Metal(m) => m.emitted_spec(textures, u, v, p),
            Material::Dielectric(m) => m.emitted_spec(textures, u, v, p),
            Material::Diffuselight(m) => m.emitted_spec(textures, u, v, p),
            Material::Isotropic(m) => m.emitted_spec(textures, u, v, p),
        }
    }

    open spec fn as_material(self) -> Material {
        self
    }

    fn scatter(&self, world: &World, r: &Ray, hit_record: &HitRecord, sample: &Sample) -> (s:
        Option<(Vec3, Ray)>) {
        match self {
            Material::Lambertian(m) => m.scatter(world, r, hit_record, sample),
            Material::Metal(m) => m.scatter(world, r, hit_record, sample),
            Material::Dielectric(m) => m.scatter(world, r, hit_record, sample),
            Material::Diffuselight(m) => m.scatter(world, r, hit_record, sample),
            Material::Isotropic(m) => m.scatter(world, r, hit_record, sample),
        }
    }

    fn emitted(&self, world: &World, u: i64, v: i64, p: Vec3) -> (c: Vec3) {
        match self {
            Material::Lambertian(m) => m.emitted(world, u, v, p),
            Material::Metal(m) => m.emitted(world, u, v, p),
            Material::Dielectric(m) => m.emitted(world, u, v, p),
            Material::Diffuselight(m) => m.emitted(world, u, v, p),
            Material::Isotropic(m) => m.emitted(world, u, v, p),
        }
    }

    fn instancing(self, world: &mut World) -> (h: usize) {
        world.add_material(self)
    }
}

} // verus!
