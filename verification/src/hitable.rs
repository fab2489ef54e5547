//! What a ray can hit: the record of a hit, the injected random draws, and
//! the scene as an arena of shapes.

use vstd::prelude::*;
use crate::aabb::Aabb;
use crate::bvh::{boxes_exact, BVHnode, fold_box, is_prefix, leaves, range_regular, range_set};
use crate::interval::Interval;
use crate::material::{Isotropic, Material, MaterialTrait};
use crate::quad::{lemma_quad_range, Quad};
use crate::ray::Ray;
use crate::sphere::{lemma_exact_quotient, lemma_sphere_range, Sphere};
use crate::texture::{SolidColor, Texture, TextureTrait};
use crate::scalar::{
    fdiv, fdiv_spec, fmul, fmul_spec, INFINITY, ln, ln_spec, max_spec, min_spec, NEG_INFINITY,
    sat_add, sat_sub, saturate, sin_cos, sin_cos_spec, sqrt_floor, UNIT,
};
use crate::utils::{
    fmax, fmin, is_direction, random_f64_0_1, random_f64_range, random_in_unit_disk,
    random_in_unit_shpere, random_squre,
};
use crate::vec3::{DOT_MAX, Vec3};

verus! {

/// Where and how a ray met a surface.
///
/// `normal` always faces against the ray; `front_face` tells whether the
/// surface's own outward normal did so already. `material` is a handle into
/// the scene's materials.
#[derive(Clone, Copy, Debug, PartialEq, Eq, Structural)]
pub struct HitRecord {
    pub t: i64,
    pub point: Vec3,
    pub normal: Vec3,
    pub material: usize,
    pub front_face: bool,
    pub u: i64,
    pub v: i64,
}

impl HitRecord {
    pub open spec fn default_spec() -> HitRecord {
        HitRecord {
            t: 0,
            point: Vec3 { x: 0, y: 0, z: 0 },
            normal: Vec3 { x: 0, y: 0, z: 0 },
            material: 0,
            front_face: false,
            u: 0,
            v: 0,
        }
    }

    /// The record with its normal set against the ray `r`, from the
    /// surface's outward normal.
    pub open spec fn with_face_normal(self, r: Ray, outward_normal: Vec3) -> HitRecord {
        let front = r.b_direction.dot_spec(outward_normal) < 0;
        HitRecord {
            front_face: front,
            normal: if front {
                outward_normal
            } else {
                (Vec3 { x: 0, y: 0, z: 0 }).difference_spec(outward_normal)
            },
            ..self
        }
    }

    pub fn new(
        t: i64,
        point: Vec3,
        normal: Vec3,
        material: usize,
        front_face: bool,
        u: i64,
        v: i64,
    ) -> (r: HitRecord)
        ensures
            r == (HitRecord { t, point, normal, material, front_face, u, v }),
    {
        HitRecord { t, point, normal, material, front_face, u, v }
    }

    pub fn default() -> (r: Self)
        ensures
            r == Self::default_spec(),
    {
        HitRecord {
            t: 0,
            point: Vec3::zero(),
            normal: Vec3::zero(),
            material: 0,
            front_face: false,
            u: 0,
            v: 0,
        }
    }

    /// Stores the normal so that it faces against the ray, and records
    /// whether `outward_normal` did so already.
    pub fn set_face_normal(&mut self, r: Ray, outward_normal: Vec3)
        requires
            r.b_direction.within(DOT_MAX as int),
            outward_normal.within(DOT_MAX as int),
        ensures
            *final(self) == old(self).with_face_normal(r, outward_normal),
            final(self).front_face == (r.b_direction.dot_spec(outward_normal) < 0),
            final(self).normal.within(DOT_MAX as int),
            final(self).front_face ==> final(self).normal == outward_normal,
    {
        self.front_face = (r.direction() * outward_normal) < 0;
        if self.front_face {
            self.normal = outward_normal;
        } else {
            self.normal = Vec3::zero() - outward_normal;
        }
    }
}

/// One bundle of random draws, made outside and handed in.
///
/// `unit` is a vector of length one unit or the zero vector, `disk` a
/// point of the unit disk in the x-y plane, `square` a point of the square
/// of side one unit about the origin of the x-y plane, `uniform` a draw
/// from `[0, UNIT)`, and `log_uniform` the natural logarithm of a draw from
/// the open unit range, which is never positive.
#[derive(Clone, Copy, Debug, PartialEq, Eq, Structural)]
pub struct Sample {
    pub unit: Vec3,
    pub disk: Vec3,
    pub square: Vec3,
    pub uniform: i64,
    pub log_uniform: i64,
}

impl Sample {
    /// The draws are what they are meant to be: `unit`, `disk` and
    /// `square` no longer than one unit on any axis, `uniform` in
    /// `[0, UNIT)`, `log_uniform` not positive.
    pub open spec fn wf(&self) -> bool {
        &&& self.unit.within(UNIT as int)
        &&& self.disk.within(UNIT as int)
        &&& self.square.within(UNIT as int)
        &&& 0 <= self.uniform < UNIT
        &&& self.log_uniform <= 0
    }

    /// The bundle is one that [`Sample::draw`] can give: `unit` is what a
    /// candidate of the unit ball becomes, `disk` lies in the open unit disk
    /// of the x-y plane, `square` in the square of side one unit about the
    /// origin of that plane, `uniform` in `[0, UNIT)`, and `log_uniform` is
    /// the logarithm of some scalar from 0.0001 up to 0.9999, or zero where
    /// that logarithm is positive.
    pub open spec fn drawn(&self) -> bool {
        &&& is_direction(self.unit)
        &&& self.disk.z == 0
        &&& self.disk.dot_spec(self.disk) < UNIT * UNIT
        &&& -UNIT / 2 <= self.square.x < UNIT / 2
        &&& -UNIT / 2 <= self.square.y < UNIT / 2
        &&& self.square.z == 0
        &&& 0 <= self.uniform < UNIT
        &&& exists|inside: int|
            10 <= inside < UNIT - 10 && self.log_uniform == min_spec(0, #[trigger] ln_spec(inside))
    }

    /// A fresh bundle, drawn from the thread's generator. The logarithm
    /// is that of a draw from 0.0001 up to 0.9999.
    pub fn draw() -> (s: Sample)
        ensures
            s.wf(),
            s.drawn(),
    {
        let inside: i64 = random_f64_range(10, UNIT - 10);
        Sample {
            unit: random_in_unit_shpere(),
            disk: random_in_unit_disk(),
            square: random_squre(),
            uniform: random_f64_0_1(),
            log_uniform: fmin(0, ln(inside)),
        }
    }

    /// The bundle that an empty tape gives.
    pub open spec fn blank() -> Sample {
        Sample {
            unit: Vec3 { x: 0, y: 0, z: 0 },
            disk: Vec3 { x: 0, y: 0, z: 0 },
            square: Vec3 { x: 0, y: 0, z: 0 },
            uniform: 0,
            log_uniform: 0,
        }
    }
}

/// A tape of random draws that is read in order and starts over at its end.
pub struct Sampler {
    pub samples: Vec<Sample>,
    pub next: usize,
}

/// The draw at position `next` of a tape, or the blank one of an empty tape.
pub open spec fn draw_at(samples: Seq<Sample>, next: int) -> Sample {
    if samples.len() == 0 {
        Sample::blank()
    } else {
        samples[next % (samples.len() as int)]
    }
}

/// The position after the one at `next`.
pub open spec fn advance(samples: Seq<Sample>, next: int) -> int {
    if samples.len() == 0 {
        0
    } else {
        (next % (samples.len() as int) + 1) % (samples.len() as int)
    }
}

impl Sampler {
    /// Every bundle on the tape is what it is meant to be.
    pub open spec fn wf(&self) -> bool {
        forall|i: int| 0 <= i < self.samples@.len() ==> (#[trigger] self.samples@[i]).wf()
    }

    /// Whether every bundle on the tape is what it is meant to be, see
    /// [`Sampler::wf`].
    pub fn is_wf(&self) -> (r: bool)
        ensures
            r == self.wf(),
    {
        let mut i: usize = 0;
        while i < self.samples.len()
            invariant
                i <= self.samples@.len(),
                forall|k: int| 0 <= k < i ==> (#[trigger] self.samples@[k]).wf(),
            decreases self.samples@.len() - i,
        {
            let s: Sample = self.samples[i];
            if !(s.unit.is_within(UNIT) && s.disk.is_within(UNIT) && s.square.is_within(UNIT) && 0
                <= s.uniform && s.uniform < UNIT && s.log_uniform <= 0) {
                assert(!self.samples@[i as int].wf());
                return false;
            }
            i = i + 1;
        }
        true
    }

    pub fn new(samples: Vec<Sample>) -> (r: Sampler)
        ensures
            r.samples == samples,
            r.next == 0,
    {
        Sampler { samples, next: 0 }
    }

    /// Reads the next draw and moves on.
    pub fn take(&mut self) -> (s: Sample)
        ensures
            s == draw_at(old(self).samples@, old(self).next as int),
            final(self).next == advance(old(self).samples@, old(self).next as int),
            final(self).samples == old(self).samples,
            old(self).wf() ==> s.wf(),
    {
        let n: usize = self.samples.len();
        if n == 0 {
            self.next = 0;
            Sample {
                unit: Vec3::zero(),
                disk: Vec3::zero(),
                square: Vec3::zero(),
                uniform: 0,
                log_uniform: 0,
            }
        } else {
            let at: usize = self.next % n;
            let s: Sample = self.samples[at];
            self.next = (at + 1) % n;
            s
        }
    }
}

/// What a hit test leaves behind: whether it hit, the record, and the
/// position on the tape of draws.
pub struct Outcome {
    pub hit: bool,
    pub rec: HitRecord,
    pub next: usize,
}

pub open spec fn miss(rec: HitRecord, next: usize) -> Outcome {
    Outcome { hit: false, rec, next }
}

pub open spec fn leaf_outcome(found: Option<HitRecord>, rec: HitRecord, next: usize) -> Outcome {
    match found {
        Some(new_rec) => Outcome { hit: true, rec: new_rec, next },
        None => miss(rec, next),
    }
}

/// Anything a ray can hit, as an entry of the arena of shapes. Composite
/// shapes name their parts by handle: the position of the part in the
/// arena.
pub enum Shape {
    Sphere(Sphere),
    Quad(Quad),
    List(Hittable_list),
    Bvh(BVHnode),
    Translate(Translate),
    RotateY(RotateY),
    Medium(ConstantMedium),
}

/// The scene: the arenas of its shapes, materials and textures. A shape's
/// parts always stand before the shape, and a texture's before the texture.
pub struct World {
    pub shapes: Vec<Shape>,
    pub materials: Vec<Material>,
    pub textures: Vec<Texture>,
}

/// What every shape can do: be tested against a ray, say what box holds
/// it, and take its place in the arena of a scene.
///
/// A shape is always seen as the entry `me` of an arena, or as one that is
/// about to become that entry; its parts, if it has any, stand before it.
pub trait Hittable: Sized {
    /// The shape is sound as the entry `me` of an arena: a plain shape is
    /// well formed, a composite one names only parts that stand before it.
    spec fn wf_at(&self, me: int) -> bool;

    /// The shape as an entry of the arena.
    spec fn as_shape(self) -> Shape;

    /// What testing the shape against the ray `r` gives, for parameters in
    /// `ray_t`, from the record `rec` and the position `next` on the tape of
    /// draws.
    spec fn hit_spec(
        &self,
        shapes: Seq<Shape>,
        me: int,
        r: Ray,
        ray_t: Interval,
        rec: HitRecord,
        tape: Seq<Sample>,
        next: usize,
    ) -> Outcome;

    /// The box that holds the shape.
    spec fn box_spec(&self, shapes: Seq<Shape>, me: int) -> Aabb;

    /// Tests the shape against the ray, for parameters in `ray_t`. A hit
    /// fills the record; a miss leaves it as it was.
    fn hit(
        &self,
        world: &World,
        me: usize,
        r: &Ray,
        ray_t: Interval,
        rec: &mut HitRecord,
        sampler: &mut Sampler,
    ) -> (b: bool)
        requires
            world.wf(),
            me <= world.shapes@.len(),
            self.wf_at(me as int),
            r.in_range(),
        ensures
            ({
                let o = self.hit_spec(
                    world.shapes@,
                    me as int,
                    *r,
                    ray_t,
                    *old(rec),
                    old(sampler).samples@,
                    old(sampler).next,
                );
                b == o.hit && *final(rec) == o.rec && final(sampler).next == o.next
            }),
            final(sampler).samples == old(sampler).samples,
            !b ==> *final(rec) == *old(rec),
    ;

    /// The box that holds the shape.
    fn bounding_box(&self, world: &World, me: usize) -> (b: Aabb)
        requires
            world.wf(),
            me <= world.shapes@.len(),
            self.wf_at(me as int),
        ensures
            b == self.box_spec(world.shapes@, me as int),
    ;

    /// Puts the shape into the arena and gives its handle.
    fn instancing(self, world: &mut World) -> (h: usize)
        requires
            old(world).wf(),
            self.wf_at(old(world).shapes@.len() as int),
        ensures
            final(world).wf(),
            h == old(world).shapes@.len(),
            final(world).shapes@ == old(world).shapes@.push(self.as_shape()),
            final(world).materials == old(world).materials,
            final(world).textures == old(world).textures,
    ;
}

impl World {
    /// Every shape is sound where it stands, see [`Shape::sound_at`].
    pub open spec fn wf(&self) -> bool {
        &&& forall|h: int|
            0 <= h < self.shapes@.len() ==> (#[trigger] self.shapes@[h]).sound_at(h)
        &&& forall|h: int| 0 <= h < self.textures@.len() ==> (#[trigger] self.textures@[h]).sound_at(h)
    }

    /// What testing the shape with handle `h` against the ray gives, from
    /// the record `rec` and the position `next` on the tape; a miss for a
    /// handle that names no shape.
    pub open spec fn hit_spec(
        shapes: Seq<Shape>,
        h: int,
        r: Ray,
        ray_t: Interval,
        rec: HitRecord,
        tape: Seq<Sample>,
        next: usize,
    ) -> Outcome
        decreases h, 2int, 0int, 0int,
    {
        if !(0 <= h < shapes.len()) {
            miss(rec, next)
        } else {
            shapes[h].hit_spec(shapes, h, r, ray_t, rec, tape, next)
        }
    }

    /// The box of the shape with handle `h`; the empty box for a handle
    /// that names no shape.
    pub open spec fn box_of(shapes: Seq<Shape>, h: int) -> Aabb
        decreases h, 2int,
    {
        if !(0 <= h < shapes.len()) {
            Aabb::empty_spec()
        } else {
            shapes[h].box_spec(shapes, h)
        }
    }

    /// Whether the scene is well formed, see [`World::wf`].
    pub fn is_wf(&self) -> (r: bool)
        ensures
            r == self.wf(),
    {
        let mut h: usize = 0;
        while h < self.shapes.len()
            invariant
                h <= self.shapes@.len(),
                forall|k: int| 0 <= k < h ==> (#[trigger] self.shapes@[k]).sound_at(k),
            decreases self.shapes@.len() - h,
        {
            if !self.shapes[h].is_wf_at(h) {
                assert(!self.shapes@[h as int].sound_at(h as int));
                return false;
            }
            h = h + 1;
        }
        let mut t: usize = 0;
        while t < self.textures.len()
            invariant
                t <= self.textures@.len(),
                forall|k: int| 0 <= k < t ==> (#[trigger] self.textures@[k]).sound_at(k),
            decreases self.textures@.len() - t,
        {
            let sound = match &self.textures[t] {
                Texture::Solid(_) => true,
                Texture::Checker(c) => c.even < t && c.odd < t,
                Texture::Image(_) => true,
            };
            if !sound {
                assert(!self.textures@[t as int].sound_at(t as int));
                return false;
            }
            t = t + 1;
        }
        true
    }

    /// A scene with nothing in it.
    pub fn new() -> (w: World)
        ensures
            w.wf(),
            w.shapes@.len() == 0,
            w.materials@.len() == 0,
            w.textures@.len() == 0,
    {
        World { shapes: Vec::new(), materials: Vec::new(), textures: Vec::new() }
    }

    /// Puts a shape into the arena and gives its handle.
    pub fn add(&mut self, shape: Shape) -> (h: usize)
        requires
            old(self).wf(),
            shape.sound_at(old(self).shapes@.len() as int),
        ensures
            final(self).wf(),
            h == old(self).shapes@.len(),
            final(self).shapes@ == old(self).shapes@.push(shape),
            final(self).materials == old(self).materials,
            final(self).textures == old(self).textures,
    {
        let h: usize = self.shapes.len();
        self.shapes.push(shape);
        proof {
            assert forall|k: int| 0 <= k < self.shapes@.len() implies (#[trigger] self.shapes@[k]).sound_at(k,
            ) by {
                if k < h {
                    assert(old(self).shapes@[k].sound_at(k));
                }
            }
        }
        h
    }

    /// Puts a material into the arena and gives its handle.
    pub fn add_material(&mut self, material: Material) -> (h: usize)
        requires
            old(self).wf(),
        ensures
            final(self).wf(),
            h == old(self).materials@.len(),
            final(self).materials@ == old(self).materials@.push(material),
            final(self).shapes == old(self).shapes,
            final(self).textures == old(self).textures,
    {
        let h: usize = self.materials.len();
        self.materials.push(material);
        proof {
            assert forall|k: int| 0 <= k < self.shapes@.len() implies (#[trigger] self.shapes@[k]).sound_at(
                k,
            ) by {
                assert(old(self).shapes@[k].sound_at(k));
            }
            assert forall|k: int| 0 <= k < self.textures@.len() implies (
            #[trigger] self.textures@[k]).sound_at(k) by {
                assert(old(self).textures@[k].sound_at(k));
            }
        }
        h
    }

    /// Puts a texture into the arena and gives its handle.
    pub fn add_texture(&mut self, texture: Texture) -> (h: usize)
        requires
            old(self).wf(),
            texture.sound_at(old(self).textures@.len() as int),
        ensures
            final(self).wf(),
            h == old(self).textures@.len(),
            final(self).textures@ == old(self).textures@.push(texture),
            final(self).shapes == old(self).shapes,
            final(self).materials == old(self).materials,
    {
        let h: usize = self.textures.len();
        self.textures.push(texture);
        proof {
            assert forall|k: int| 0 <= k < self.textures@.len() implies (
            #[trigger] self.textures@[k]).sound_at(k) by {
                if k < h {
                    assert(old(self).textures@[k].sound_at(k));
                }
            }
            assert forall|k: int| 0 <= k < self.shapes@.len() implies (#[trigger] self.shapes@[k]).sound_at(
                k,
            ) by {
                assert(old(self).shapes@[k].sound_at(k));
            }
        }
        h
    }

    /// The box that holds the shape with handle `h`.
    pub fn bounding_box(&self, h: usize) -> (b: Aabb)
        requires
            self.wf(),
            h < self.shapes@.len(),
        ensures
            b == Self::box_of(self.shapes@, h as int),
        decreases h, 2int,
    {
        assert(self.shapes@[h as int].sound_at(h as int));
        assert(self.shapes@[h as int].wf_at(h as int));
        self.shapes[h].bounding_box(self, h)
    }

    /// Tests the shape with handle `h` against the ray, for parameters in
    /// `ray_t`. A hit fills the record; a miss leaves it as it was.
    pub fn hit(
        &self,
        h: usize,
        r: &Ray,
        ray_t: Interval,
        rec: &mut HitRecord,
        sampler: &mut Sampler,
    ) -> (b: bool)
        requires
            self.wf(),
            h < self.shapes@.len(),
            r.in_range(),
        ensures
            ({
                let o = World::hit_spec(
                    self.shapes@,
                    h as int,
                    *r,
                    ray_t,
                    *old(rec),
                    old(sampler).samples@,
                    old(sampler).next,
                );
                b == o.hit && *final(rec) == o.rec && final(sampler).next == o.next
            }),
            final(sampler).samples == old(sampler).samples,
            !b ==> *final(rec) == *old(rec),
        decreases h, 2int,
    {
        assert(self.shapes@[h as int].sound_at(h as int));
        assert(self.shapes@[h as int].wf_at(h as int));
        self.shapes[h].hit(self, h, r, ray_t, rec, sampler)
    }
}

impl Shape {
    /// The shape is sound as the entry `me` of an arena: a plain shape is
    /// well formed, a composite one names only parts that stand before it.
    pub open spec fn sound_at(&self, me: int) -> bool {
        match self {
            Shape::Sphere(s) => s.wf(),
            Shape::Quad(q) => q.wf(),
            Shape::List(l) => l.parts_before(me),
            Shape::Bvh(n) => n.left < me && n.right < me,
            Shape::Translate(t) => t.objects < me,
            Shape::RotateY(t) => t.objects < me,
            Shape::Medium(m) => m.boundary < me,
        }
    }

    /// Whether the shape is sound as the entry `me` of an arena, see
    /// [`Shape::sound_at`].
    pub fn is_wf_at(&self, me: usize) -> (r: bool)
        ensures
            r == self.sound_at(me as int),
    {
        match self {
            Shape::Sphere(s) => s.is_wf(),
            Shape::Quad(q) => q.is_wf(),
            Shape::List(l) => l.all_before(me),
            Shape::Bvh(n) => n.left < me && n.right < me,
            Shape::Translate(t) => t.objects < me,
            Shape::RotateY(t) => t.objects < me,
            Shape::Medium(m) => m.boundary < me,
        }
    }
}

impl Hittable for Shape {
    open spec fn wf_at(&self, me: int) -> bool {
        self.sound_at(me)
    }

    open spec fn as_shape(self) -> Shape {
        self
    }

    open spec fn hit_spec(
        &self,
        shapes: Seq<Shape>,
        me: int,
        r: Ray,
        ray_t: Interval,
        rec: HitRecord,
        tape: Seq<Sample>,
        next: usize,
    ) -> Outcome
        decreases me, 1int, 0int, 0int,
    {
        match self {
            Shape::Sphere(s) => s.hit_spec(shapes, me, r, ray_t, rec, tape, next),
            Shape::Quad(q) => q.hit_spec(shapes, me, r, ray_t, rec, tape, next),
            Shape::List(l) => l.hit_spec(shapes, me, r, ray_t, rec, tape, next),
            Shape::Bvh(n) => n.hit_spec(shapes, me, r, ray_t, rec, tape, next),
            Shape::Translate(t) => t.hit_spec(shapes, me, r, ray_t, rec, tape, next),
            Shape::RotateY(t) => t.hit_spec(shapes, me, r, ray_t, rec, tape, next),
            Shape::Medium(m) => m.hit_spec(shapes, me, r, ray_t, rec, tape, next),
        }
    }

    open spec fn box_spec(&self, shapes: Seq<Shape>, me: int) -> Aabb
        decreases me, 1int,
    {
        match self {
            Shape::Sphere(s) => s.box_spec(shapes, me),
            Shape::Quad(q) => q.box_spec(shapes, me),
            Shape::List(l) => l.box_spec(shapes, me),
            Shape::Bvh(n) => n.box_spec(shapes, me),
            Shape::Translate(t) => t.box_spec(shapes, me),
            Shape::RotateY(t) => t.box_spec(shapes, me),
            Shape::Medium(m) => m.box_spec(shapes, me),
        }
    }

    fn hit(
        &self,
        world: &World,
        me: usize,
        r: &Ray,
        ray_t: Interval,
        rec: &mut HitRecord,
        sampler: &mut Sampler,
    ) -> (b: bool)
        decreases me, 1int,
    {
        assert(self.sound_at(me as int));
        match self {
            Shape::Sphere(s) => Hittable::hit(s, world, me, r, ray_t, rec, sampler),
            Shape::Quad(q) => Hittable::hit(q, world, me, r, ray_t, rec, sampler),
            Shape::List(l) => l.hit(world, me, r, ray_t, rec, sampler),
            Shape::Bvh(n) => n.hit(world, me, r, ray_t, rec, sampler),
            Shape::Translate(t) => t.hit(world, me, r, ray_t, rec, sampler),
            Shape::RotateY(t) => t.hit(world, me, r, ray_t, rec, sampler),
            Shape::Medium(m) => m.hit(world, me, r, ray_t, rec, sampler),
        }
    }

    fn bounding_box(&self, world: &World, me: usize) -> (b: Aabb)
        decreases me, 1int,
    {
        assert(self.sound_at(me as int));
        match self {
            Shape::Sphere(s) => Hittable::bounding_box(s, world, me),
            Shape::Quad(q) => Hittable::bounding_box(q, world, me),
            Shape::List(l) => Hittable::bounding_box(l, world, me),
            Shape::Bvh(n) => Hittable::bounding_box(n, world, me),
            Shape::Translate(t) => Hittable::bounding_box(t, world, me),
            Shape::RotateY(t) => Hittable::bounding_box(t, world, me),
            Shape::Medium(m) => m.bounding_box(world, me),
        }
    }

    fn instancing(self, world: &mut World) -> (h: usize) {
        world.add(self)
    }
}

/// A flat collection of shapes, with the box that holds them all.
#[allow(non_camel_case_types)]
pub struct Hittable_list {
    pub objects: Vec<usize>,
    pub bbox: Aabb,
}

/// What the walk through a list has found so far.
pub struct ListState {
    pub hit_anything: bool,
    pub closest_so_far: i64,
    pub rec_tmp: HitRecord,
    pub rec: HitRecord,
    pub next: usize,
}

impl Hittable_list {
    /// Whether every part of the list has a handle below `me`.
    pub fn all_before(&self, me: usize) -> (r: bool)
        ensures
            r == self.parts_before(me as int),
    {
        let mut i: usize = 0;
        while i < self.objects.len()
            invariant
                i <= self.objects@.len(),
                forall|k: int| 0 <= k < i ==> (#[trigger] self.objects@[k]) < me,
            decreases self.objects@.len() - i,
        {
            if self.objects[i] >= me {
                return false;
            }
            i = i + 1;
        }
        true
    }

    /// Every part of the list has a handle below `me`.
    pub open spec fn parts_before(&self, me: int) -> bool {
        forall|i: int| 0 <= i < self.objects@.len() ==> (#[trigger] self.objects@[i]) < me
    }

    /// The list's box is the one built up from the boxes of its parts.
    pub open spec fn wf(&self, shapes: Seq<Shape>) -> bool {
        &&& self.parts_before(shapes.len() as int)
        &&& self.bbox == fold_box(shapes, self.objects@, 0, self.objects@.len() as int)
    }

    /// The state of the walk after the first `k` parts: each part is tested
    /// on the range from `ray_t.tmin` to the nearest hit so far, and a hit
    /// becomes the nearest.
    pub open spec fn walk(
        &self,
        shapes: Seq<Shape>,
        me: int,
        k: int,
        r: Ray,
        ray_t: Interval,
        rec: HitRecord,
        tape: Seq<Sample>,
        next: usize,
    ) -> ListState
        decreases me, 0int, 0int, k,
    {
        if k <= 0 || k > self.objects@.len() {
            ListState {
                hit_anything: false,
                closest_so_far: ray_t.tmax,
                rec_tmp: HitRecord::default_spec(),
                rec,
                next,
            }
        } else {
            let before = self.walk(shapes, me, k - 1, r, ray_t, rec, tape, next);
            let part = self.objects@[k - 1];
            if part < me {
                let o = World::hit_spec(
                    shapes,
                    part as int,
                    r,
                    Interval { tmin: ray_t.tmin, tmax: before.closest_so_far },
                    before.rec_tmp,
                    tape,
                    before.next,
                );
                if o.hit {
                    ListState {
                        hit_anything: true,
                        closest_so_far: o.rec.t,
                        rec_tmp: o.rec,
                        rec: o.rec,
                        next: o.next,
                    }
                } else {
                    ListState { rec_tmp: o.rec, next: o.next, ..before }
                }
            } else {
                before
            }
        }
    }

    /// The list of the shapes with the handles `objects`.
    pub fn new(objects: Vec<usize>, world: &World) -> (l: Hittable_list)
        requires
            world.wf(),
            forall|i: int| 0 <= i < objects@.len() ==> objects@[i] < world.shapes@.len(),
        ensures
            l.objects == objects,
            l.wf(world.shapes@),
    {
        let mut bbox = Aabb::default();
        let mut i: usize = 0;
        while i < objects.len()
            invariant
                i <= objects@.len(),
                world.wf(),
                forall|k: int| 0 <= k < objects@.len() ==> objects@[k] < world.shapes@.len(),
                bbox == fold_box(world.shapes@, objects@, 0, i as int),
            decreases objects@.len() - i,
        {
            bbox = Aabb::new_from_bbox(bbox, world.bounding_box(objects[i]));
            i = i + 1;
        }
        Hittable_list { objects, bbox }
    }

    /// The list of no shapes.
    pub fn default() -> (l: Hittable_list)
        ensures
            l.objects@.len() == 0,
            l.bbox == Aabb::empty_spec(),
    {
        Hittable_list { objects: Vec::new(), bbox: Aabb::default() }
    }

    /// Appends the shape with the handle `object` and widens the list's box
    /// by the shape's.
    pub fn add(&mut self, object: usize, world: &World)
        requires
            world.wf(),
            object < world.shapes@.len(),
        ensures
            final(self).objects@ == old(self).objects@.push(object),
            final(self).bbox == Aabb::union_spec(
                old(self).bbox,
                World::box_of(world.shapes@, object as int),
            ).padded_spec(),
            old(self).wf(world.shapes@) ==> final(self).wf(world.shapes@),
    {
        self.bbox = Aabb::new_from_bbox(self.bbox, world.bounding_box(object));
        self.objects.push(object);
        proof {
            if old(self).wf(world.shapes@) {
                lemma_fold_same(
                    world.shapes@,
                    old(self).objects@,
                    self.objects@,
                    old(self).objects@.len() as int,
                );
            }
        }
    }

    /// Builds the tree over the shapes of the list, adds it to the arena
    /// and gives the handle of its root. The list holds every handle as
    /// often as before, in the order in which the builder arranges them.
    /// Under the root lie exactly the shapes of the list,
    /// and the tree is cut in the middle all the way down; where the boxes
    /// of the shapes are regular, every node's box is exactly the union of
    /// the boxes of its two children.
    pub fn to_bvh(&mut self, world: &mut World) -> (root: usize)
        requires
            old(world).wf(),
            old(self).objects@.len() > 0,
            forall|i: int|
                0 <= i < old(self).objects@.len() ==> old(self).objects@[i] < old(
                    world,
                ).shapes@.len(),
        ensures
            final(world).wf(),
            root == final(world).shapes@.len() - 1,
            root >= old(world).shapes@.len(),
            crate::bvh::is_prefix(old(world).shapes@, final(world).shapes@),
            final(self).bbox == old(self).bbox,
            final(self).objects@.len() == old(self).objects@.len(),
            range_set(final(self).objects@, 0, old(self).objects@.len() as int) == range_set(
                old(self).objects@,
                0,
                old(self).objects@.len() as int,
            ),
            final(self).objects@.to_multiset() == old(self).objects@.to_multiset(),
            final(self).objects@ == crate::bvh::arranged(
                old(world).shapes@,
                old(self).objects@,
                0,
                old(self).objects@.len() as int,
            ),
            leaves(final(world).shapes@, old(world).shapes@.len() as int, root as int)
                == range_set(old(self).objects@, 0, old(self).objects@.len() as int),
            crate::bvh::cut_at(
                final(world).shapes@,
                old(world).shapes@.len() as int,
                root as int,
                old(self).objects@.len() as int,
            ),
            crate::bvh::names_at(
                final(world).shapes@,
                root as int,
                old(self).objects@.len() as int,
                final(self).objects@,
            ),
            World::box_of(final(world).shapes@, root as int) == fold_box(
                old(world).shapes@,
                old(self).objects@,
                0,
                old(self).objects@.len() as int,
            ),
            range_regular(old(world).shapes@, old(self).objects@, 0, old(self).objects@.len() as int)
                ==> boxes_exact(
                final(world).shapes@,
                old(world).shapes@.len() as int,
                root as int,
            ),
    {
        let ghost s0 = world.shapes@;
        let ghost o0 = self.objects@;
        let node = BVHnode::new(self, world);
        let ghost s1 = world.shapes@;
        let root = node.instancing(world);
        proof {
            let s2 = world.shapes@;
            let base = s0.len() as int;
            assert(crate::bvh::is_prefix(s1, s2));
            assert(o0.subrange(0, o0.len() as int) =~= o0);
            assert(self.objects@.subrange(0, o0.len() as int) =~= self.objects@);
            crate::bvh::lemma_cut_prefix(s1, s2, base, node, o0.len() as int);
            crate::bvh::lemma_places_prefix(s1, s2, base, node, o0.len() as int);
            crate::bvh::lemma_tree_prefix(s1, s2, base, node.left as int);
            crate::bvh::lemma_tree_prefix(s1, s2, base, node.right as int);
            crate::bvh::lemma_box_of_prefix(s1, s2, node.left as int);
            crate::bvh::lemma_box_of_prefix(s1, s2, node.right as int);
        }
        root
    }

    pub fn bounding_box(&self) -> (b: Aabb)
        ensures
            b == self.bbox,
    {
        self.bbox
    }
}

impl Hittable for Hittable_list {
    open spec fn wf_at(&self, me: int) -> bool {
        self.parts_before(me)
    }

    open spec fn as_shape(self) -> Shape {
        Shape::List(self)
    }

    /// The parts are tested one after the other, and the nearest hit is
    /// kept, see [`Hittable_list::walk`].
    open spec fn hit_spec(
        &self,
        shapes: Seq<Shape>,
        me: int,
        r: Ray,
        ray_t: Interval,
        rec: HitRecord,
        tape: Seq<Sample>,
        next: usize,
    ) -> Outcome
        decreases me, 0int, 1int, 0int,
    {
        let end = self.walk(shapes, me, self.objects@.len() as int, r, ray_t, rec, tape, next);
        Outcome { hit: end.hit_anything, rec: end.rec, next: end.next }
    }

    open spec fn box_spec(&self, shapes: Seq<Shape>, me: int) -> Aabb {
        self.bbox
    }

    fn hit(
        &self,
        world: &World,
        me: usize,
        r: &Ray,
        ray_t: Interval,
        rec: &mut HitRecord,
        sampler: &mut Sampler,
    ) -> (b: bool)
        decreases me, 0int,
    {
        assert(self.wf_at(me as int));
        let ghost rec0 = *rec;
        let ghost tape = sampler.samples@;
        let ghost next0 = sampler.next;
        let ghost samples0 = sampler.samples;
        let mut rec_tmp = HitRecord::default();
        let mut closest_so_far = ray_t.tmax;
        let mut hit_anything = false;
        let mut i: usize = 0;
        while i < self.objects.len()
            invariant
                i <= self.objects@.len(),
                world.wf(),
                me <= world.shapes@.len(),
                self.parts_before(me as int),
                r.in_range(),
                sampler.samples == samples0,
                tape == samples0@,
                !hit_anything ==> *rec == rec0,
                ({
                    let st = self.walk(world.shapes@, me as int, i as int, *r, ray_t, rec0, tape, next0);
                    &&& st.hit_anything == hit_anything
                    &&& st.closest_so_far == closest_so_far
                    &&& st.rec_tmp == rec_tmp
                    &&& st.rec == *rec
                    &&& st.next == sampler.next
                }),
            decreases self.objects@.len() - i,
        {
            let part: usize = self.objects[i];
            assert(self.objects@[i as int] < me);
            if world.hit(part, r, Interval::new(ray_t.tmin, closest_so_far), &mut rec_tmp, sampler) {
                hit_anything = true;
                closest_so_far = rec_tmp.t;
                *rec = rec_tmp;
            }
            i = i + 1;
        }
        hit_anything
    }

    fn bounding_box(&self, world: &World, me: usize) -> (b: Aabb) {
        self.bbox
    }

    fn instancing(self, world: &mut World) -> (h: usize) {
        world.add(Shape::List(self))
    }
}

/// A shape moved by `offset`.
#[derive(Clone, Copy, Debug, PartialEq, Eq, Structural)]
pub struct Translate {
    pub objects: usize,
    pub offset: Vec3,
    pub bbox: Aabb,
}

impl Translate {
    pub open spec fn moved_ray(&self, r: Ray) -> Ray {
        Ray { a_origin: r.a_origin.difference_spec(self.offset), ..r }
    }

    /// The shape with the handle `objects`, moved by `offset`.
    pub fn new(objects: usize, offset: Vec3, world: &World) -> (t: Translate)
        requires
            world.wf(),
            objects < world.shapes@.len(),
        ensures
            t.objects == objects,
            t.offset == offset,
            t.bbox == World::box_of(world.shapes@, objects as int).translated_spec(offset),
    {
        let bbox = world.bounding_box(objects) + offset;
        Translate { objects, offset, bbox }
    }

    pub fn bounding_box(&self) -> (b: Aabb)
        ensures
            b == self.bbox,
    {
        self.bbox
    }
}

impl Hittable for Translate {
    open spec fn wf_at(&self, me: int) -> bool {
        self.objects < me
    }

    open spec fn as_shape(self) -> Shape {
        Shape::Translate(self)
    }

    /// The part is tested with the ray moved back by the offset, and the
    /// point of a hit is moved forth; a ray that leaves the scene's range on
    /// the way is lost.
    open spec fn hit_spec(
        &self,
        shapes: Seq<Shape>,
        me: int,
        r: Ray,
        ray_t: Interval,
        rec: HitRecord,
        tape: Seq<Sample>,
        next: usize,
    ) -> Outcome
        decreases me, 0int, 1int, 0int,
    {
        if !self.moved_ray(r).in_range() || !(self.objects < me) {
            miss(rec, next)
        } else {
            let o = World::hit_spec(
                shapes,
                self.objects as int,
                self.moved_ray(r),
                ray_t,
                rec,
                tape,
                next,
            );
            if o.hit {
                Outcome {
                    rec: HitRecord { point: o.rec.point.sum_spec(self.offset), ..o.rec },
                    ..o
                }
            } else {
                o
            }
        }
    }

    open spec fn box_spec(&self, shapes: Seq<Shape>, me: int) -> Aabb {
        self.bbox
    }

    fn hit(
        &self,
        world: &World,
        me: usize,
        r: &Ray,
        ray_t: Interval,
        rec: &mut HitRecord,
        sampler: &mut Sampler,
    ) -> (b: bool)
        decreases me, 0int,
    {
        assert(self.wf_at(me as int));
        let offset_ray = Ray::new(r.origin() - self.offset, r.direction(), r.time());
        if !offset_ray.is_in_range() {
            return false;
        }
        if !world.hit(self.objects, &offset_ray, ray_t, rec, sampler) {
            return false;
        }
        rec.point = rec.point + self.offset;
        true
    }

    fn bounding_box(&self, world: &World, me: usize) -> (b: Aabb) {
        self.bbox
    }

    fn instancing(self, world: &mut World) -> (h: usize) {
        world.add(Shape::Translate(self))
    }
}

/// A shape turned about the y axis, by the angle whose sine and cosine are
/// `sin_theta` and `cos_theta`, as fixed-point scalars.
#[derive(Clone, Copy, Debug, PartialEq, Eq, Structural)]
pub struct RotateY {
    pub objects: usize,
    pub sin_theta: i64,
    pub cos_theta: i64,
    pub bbox: Aabb,
}

/// The vector turned into the frame of a rotated shape.
pub open spec fn rotate_in(v: Vec3, sin_theta: int, cos_theta: int) -> Vec3 {
    Vec3 {
        x: saturate(fmul_spec(cos_theta, v.x as int) - fmul_spec(sin_theta, v.z as int)) as i64,
        y: v.y,
        z: saturate(fmul_spec(sin_theta, v.x as int) + fmul_spec(cos_theta, v.z as int)) as i64,
    }
}

/// The vector turned back from the frame of a rotated shape.
pub open spec fn rotate_out(v: Vec3, sin_theta: int, cos_theta: int) -> Vec3 {
    Vec3 {
        x: saturate(fmul_spec(cos_theta, v.x as int) + fmul_spec(sin_theta, v.z as int)) as i64,
        y: v.y,
        z: saturate(fmul_spec(cos_theta, v.z as int) - fmul_spec(sin_theta, v.x as int)) as i64,
    }
}

pub fn turn_in(v: Vec3, sin_theta: i64, cos_theta: i64) -> (r: Vec3)
    ensures
        r == rotate_in(v, sin_theta as int, cos_theta as int),
{
    Vec3 {
        x: sat_sub(fmul(cos_theta, v.x), fmul(sin_theta, v.z)),
        y: v.y,
        z: sat_add(fmul(sin_theta, v.x), fmul(cos_theta, v.z)),
    }
}

pub fn turn_out(v: Vec3, sin_theta: i64, cos_theta: i64) -> (r: Vec3)
    ensures
        r == rotate_out(v, sin_theta as int, cos_theta as int),
{
    Vec3 {
        x: sat_add(fmul(cos_theta, v.x), fmul(sin_theta, v.z)),
        y: v.y,
        z: sat_sub(fmul(cos_theta, v.z), fmul(sin_theta, v.x)),
    }
}

/// Corner `n` of a box, for `n` from 0 to 7: the upper bound on x for
/// `n ≥ 4`, on y where `n / 2` is odd, on z where `n` is odd, else the
/// lower.
pub open spec fn corner(b: Aabb, n: int) -> Vec3 {
    Vec3 {
        x: if n / 4 == 1 {
            b.x.tmax
        } else {
            b.x.tmin
        },
        y: if (n / 2) % 2 == 1 {
            b.y.tmax
        } else {
            b.y.tmin
        },
        z: if n % 2 == 1 {
            b.z.tmax
        } else {
            b.z.tmin
        },
    }
}

/// The component-wise least and largest of the first `n` corners of a box
/// after each was turned.
pub open spec fn turned_extent(b: Aabb, sin_theta: int, cos_theta: int, n: int) -> (Vec3, Vec3)
    decreases n,
{
    if n <= 0 {
        (
            Vec3 { x: INFINITY, y: INFINITY, z: INFINITY },
            Vec3 { x: NEG_INFINITY, y: NEG_INFINITY, z: NEG_INFINITY },
        )
    } else {
        let before = turned_extent(b, sin_theta, cos_theta, n - 1);
        let tester = rotate_out(corner(b, n - 1), sin_theta, cos_theta);
        (
            Vec3 {
                x: min_spec(before.0.x as int, tester.x as int) as i64,
                y: min_spec(before.0.y as int, tester.y as int) as i64,
                z: min_spec(before.0.z as int, tester.z as int) as i64,
            },
            Vec3 {
                x: max_spec(before.1.x as int, tester.x as int) as i64,
                y: max_spec(before.1.y as int, tester.y as int) as i64,
                z: max_spec(before.1.z as int, tester.z as int) as i64,
            },
        )
    }
}

/// The box that holds a box after it was turned: the box of its eight
/// turned corners.
pub open spec fn turned_box(b: Aabb, sin_theta: int, cos_theta: int) -> Aabb {
    Aabb::from_points_spec(
        turned_extent(b, sin_theta, cos_theta, 8).0,
        turned_extent(b, sin_theta, cos_theta, 8).1,
    )
}

/// A turn by no angle, with the sine 0 and the cosine 1, leaves every
/// vector as it is.
pub proof fn lemma_no_turn(v: Vec3)
    ensures
        rotate_out(v, 0, UNIT as int) == v,
        rotate_in(v, 0, UNIT as int) == v,
{
    lemma_exact_quotient(v.x as int, UNIT as int);
    lemma_exact_quotient(v.z as int, UNIT as int);
    assert(UNIT * (v.x as int) == (v.x as int) * UNIT) by (nonlinear_arith);
    assert(UNIT * (v.z as int) == (v.z as int) * UNIT) by (nonlinear_arith);
    assert(0 * (v.x as int) == 0 && 0 * (v.z as int) == 0) by (nonlinear_arith);
}

/// A padded box that is turned by no angle is the box itself.
pub proof fn lemma_box_of_no_turn(b: Aabb)
    requires
        b.is_padded(),
    ensures
        turned_box(b, 0, UNIT as int) == b,
{
    let u = UNIT as int;
    lemma_no_turn(corner(b, 0));
    lemma_no_turn(corner(b, 1));
    lemma_no_turn(corner(b, 2));
    lemma_no_turn(corner(b, 3));
    lemma_no_turn(corner(b, 4));
    lemma_no_turn(corner(b, 5));
    lemma_no_turn(corner(b, 6));
    lemma_no_turn(corner(b, 7));
    reveal_with_fuel(turned_extent, 9);
    let low = turned_extent(b, 0, u, 8).0;
    let high = turned_extent(b, 0, u, 8).1;
    assert(low == (Vec3 { x: b.x.tmin, y: b.y.tmin, z: b.z.tmin }));
    assert(high == (Vec3 { x: b.x.tmax, y: b.y.tmax, z: b.z.tmax }));
}

impl RotateY {
    pub open spec fn turned_ray(&self, r: Ray) -> Ray {
        Ray {
            a_origin: rotate_in(r.a_origin, self.sin_theta as int, self.cos_theta as int),
            b_direction: rotate_in(r.b_direction, self.sin_theta as int, self.cos_theta as int),
            time: r.time,
        }
    }

    /// The shape with the handle `objects`, turned about the y axis by
    /// `angle` degrees.
    pub fn new(objects: usize, angle: i64, world: &World) -> (t: RotateY)
        requires
            world.wf(),
            objects < world.shapes@.len(),
        ensures
            t.objects == objects,
            t.sin_theta == sin_cos_spec(angle as int).0,
            t.cos_theta == sin_cos_spec(angle as int).1,
            t.bbox == turned_box(
                World::box_of(world.shapes@, objects as int),
                t.sin_theta as int,
                t.cos_theta as int,
            ),
            angle == 0 && World::box_of(world.shapes@, objects as int).is_padded() ==> t.bbox
                == World::box_of(world.shapes@, objects as int),
    {
        let (sin_theta, cos_theta) = sin_cos(angle);
        proof {
            if World::box_of(world.shapes@, objects as int).is_padded() {
                lemma_box_of_no_turn(World::box_of(world.shapes@, objects as int));
            }
        }
        Self::from_sin_cos(objects, sin_theta, cos_theta, world)
    }

    /// The shape with the handle `objects`, turned about the y axis by the
    /// angle with the sine `sin_theta` and the cosine `cos_theta`.
    pub fn from_sin_cos(objects: usize, sin_theta: i64, cos_theta: i64, world: &World) -> (t:
        RotateY)
        requires
            world.wf(),
            objects < world.shapes@.len(),
        ensures
            t.objects == objects,
            t.sin_theta == sin_theta,
            t.cos_theta == cos_theta,
            t.bbox == turned_box(
                World::box_of(world.shapes@, objects as int),
                sin_theta as int,
                cos_theta as int,
            ),
    {
        let bbox = world.bounding_box(objects);
        let mut min = Vec3::new(INFINITY, INFINITY, INFINITY);
        let mut max = Vec3::new(NEG_INFINITY, NEG_INFINITY, NEG_INFINITY);
        let mut n: u8 = 0;
        while n < 8
            invariant
                n <= 8,
                (min, max) == turned_extent(bbox, sin_theta as int, cos_theta as int, n as int),
            decreases 8 - n,
        {
            let x: i64 = if n / 4 == 1 {
                bbox.x.tmax
            } else {
                bbox.x.tmin
            };
            let y: i64 = if (n / 2) % 2 == 1 {
                bbox.y.tmax
            } else {
                bbox.y.tmin
            };
            let z: i64 = if n % 2 == 1 {
                bbox.z.tmax
            } else {
                bbox.z.tmin
            };
            let tester = turn_out(Vec3::new(x, y, z), sin_theta, cos_theta);
            min = Vec3::merge_min(&min, &tester);
            max = Vec3::merge_max(&max, &tester);
            n = n + 1;
        }
        let bbox = Aabb::new_from_point(min, max);
        Self { objects, sin_theta, cos_theta, bbox }
    }

    pub fn bounding_box(&self) -> (b: Aabb)
        ensures
            b == self.bbox,
    {
        self.bbox
    }
}

impl Hittable for RotateY {
    open spec fn wf_at(&self, me: int) -> bool {
        self.objects < me
    }

    open spec fn as_shape(self) -> Shape {
        Shape::RotateY(self)
    }

    /// The part is tested with the ray turned into its frame, and the point
    /// and the normal of a hit are turned back; a ray that leaves the
    /// scene's range on the way is lost.
    open spec fn hit_spec(
        &self,
        shapes: Seq<Shape>,
        me: int,
        r: Ray,
        ray_t: Interval,
        rec: HitRecord,
        tape: Seq<Sample>,
        next: usize,
    ) -> Outcome
        decreases me, 0int, 1int, 0int,
    {
        if !self.turned_ray(r).in_range() || !(self.objects < me) {
            miss(rec, next)
        } else {
            let o = World::hit_spec(
                shapes,
                self.objects as int,
                self.turned_ray(r),
                ray_t,
                rec,
                tape,
                next,
            );
            if o.hit {
                Outcome {
                    rec: HitRecord {
                        point: rotate_out(
                            o.rec.point,
                            self.sin_theta as int,
                            self.cos_theta as int,
                        ),
                        normal: rotate_out(
                            o.rec.normal,
                            self.sin_theta as int,
                            self.cos_theta as int,
                        ),
                        ..o.rec
                    },
                    ..o
                }
            } else {
                o
            }
        }
    }

    open spec fn box_spec(&self, shapes: Seq<Shape>, me: int) -> Aabb {
        self.bbox
    }

    fn hit(
        &self,
        world: &World,
        me: usize,
        r: &Ray,
        ray_t: Interval,
        rec: &mut HitRecord,
        sampler: &mut Sampler,
    ) -> (b: bool)
        decreases me, 0int,
    {
        assert(self.wf_at(me as int));
        let origin = turn_in(r.origin(), self.sin_theta, self.cos_theta);
        let direction = turn_in(r.direction(), self.sin_theta, self.cos_theta);
        let rotated_ray = Ray::new(origin, direction, r.time());
        if !rotated_ray.is_in_range() {
            return false;
        }
        if !world.hit(self.objects, &rotated_ray, ray_t, rec, sampler) {
            return false;
        }
        let point = turn_out(rec.point, self.sin_theta, self.cos_theta);
        let normal = turn_out(rec.normal, self.sin_theta, self.cos_theta);
        rec.point = point;
        rec.normal = normal;
        true
    }

    fn bounding_box(&self, world: &World, me: usize) -> (b: Aabb) {
        self.bbox
    }

    fn instancing(self, world: &mut World) -> (h: usize) {
        world.add(Shape::RotateY(self))
    }
}

/// How far past its entry into a medium a ray must be before the exit is
/// looked for.
pub const MEDIUM_EPSILON: i64 = 10;

/// A medium of constant density inside a convex boundary. `neg_inv_density`
/// is `−1 / density`; `phase_function` is the handle of the material that
/// scatters inside.
#[derive(Clone, Copy, Debug, PartialEq, Eq, Structural)]
pub struct ConstantMedium {
    pub boundary: usize,
    pub neg_inv_density: i64,
    pub phase_function: usize,
}

/// Where a ray that entered a medium at `t1` and leaves it at `t2` scatters
/// inside it, if it does: the free flight `neg_inv_density · log_uniform`
/// must not be longer than the way through the medium.
pub open spec fn scatter_point(
    neg_inv_density: int,
    log_uniform: int,
    t1: int,
    t2: int,
    ray_length: int,
) -> Option<int> {
    let entry = max_spec(t1, 0);
    let distance_inside = fmul_spec(saturate(t2 - entry), ray_length);
    let hit_distance = fmul_spec(neg_inv_density, log_uniform);
    if hit_distance > distance_inside {
        None
    } else {
        Some(saturate(entry + fdiv_spec(hit_distance, ray_length)))
    }
}

impl ConstantMedium {
    /// The medium of density `density` inside the shape with the handle
    /// `boundary`; the material that scatters inside it, with the texture
    /// `tex`, is added to the materials.
    pub fn new(boundary: usize, density: i64, tex: usize, world: &mut World) -> (m: ConstantMedium)
        requires
            old(world).wf(),
        ensures
            final(world).wf(),
            m.boundary == boundary,
            m.neg_inv_density == fdiv_spec(-UNIT, density as int),
            m.phase_function == old(world).materials@.len(),
            final(world).materials@ == old(world).materials@.push(
                Material::Isotropic(Isotropic { tex }),
            ),
            final(world).shapes == old(world).shapes,
            final(world).textures == old(world).textures,
    {
        ConstantMedium {
            boundary,
            neg_inv_density: fdiv(-UNIT, density),
            phase_function: Isotropic::new(tex).instancing(world),
        }
    }

    /// The medium of one colour, which is added to the textures.
    pub fn new_from_color(boundary: usize, density: i64, albedo: Vec3, world: &mut World) -> (m:
        ConstantMedium)
        requires
            old(world).wf(),
        ensures
            final(world).wf(),
            m.boundary == boundary,
            m.neg_inv_density == fdiv_spec(-UNIT, density as int),
            m.phase_function == old(world).materials@.len(),
            final(world).materials@ == old(world).materials@.push(
                Material::Isotropic(Isotropic { tex: old(world).textures@.len() as usize }),
            ),
            final(world).textures@ == old(world).textures@.push(
                Texture::Solid(SolidColor { albedo }),
            ),
            final(world).shapes == old(world).shapes,
    {
        let tex: usize = SolidColor::new(albedo).instancing(world);
        Self::new(boundary, density, tex, world)
    }
}

impl Hittable for ConstantMedium {
    open spec fn wf_at(&self, me: int) -> bool {
        self.boundary < me
    }

    open spec fn as_shape(self) -> Shape {
        Shape::Medium(self)
    }

    /// The boundary is crossed twice, in and out; both crossings are
    /// brought into `ray_t`; then one draw decides where between them the
    /// ray scatters, if anywhere. Only a ray that still has a way through
    /// the medium takes a draw.
    open spec fn hit_spec(
        &self,
        shapes: Seq<Shape>,
        me: int,
        r: Ray,
        ray_t: Interval,
        rec: HitRecord,
        tape: Seq<Sample>,
        next: usize,
    ) -> Outcome
        decreases me, 0int, 1int, 0int,
    {
        if !(self.boundary < me) {
            miss(rec, next)
        } else {
            let o1 = World::hit_spec(
                shapes,
                self.boundary as int,
                r,
                Interval::universe_spec(),
                HitRecord::default_spec(),
                tape,
                next,
            );
            if !o1.hit {
                miss(rec, o1.next)
            } else {
                let o2 = World::hit_spec(
                    shapes,
                    self.boundary as int,
                    r,
                    Interval {
                        tmin: saturate(o1.rec.t + MEDIUM_EPSILON) as i64,
                        tmax: INFINITY,
                    },
                    HitRecord::default_spec(),
                    tape,
                    o1.next,
                );
                if !o2.hit {
                    miss(rec, o2.next)
                } else {
                    let t1 = ray_t.clamp_spec(o1.rec.t as int);
                    let t2 = ray_t.clamp_spec(o2.rec.t as int);
                    if t1 >= t2 {
                        miss(rec, o2.next)
                    } else {
                        let after = advance(tape, o2.next as int) as usize;
                        match scatter_point(
                            self.neg_inv_density as int,
                            draw_at(tape, o2.next as int).log_uniform as int,
                            t1,
                            t2,
                            sqrt_floor(r.b_direction.dot_spec(r.b_direction)),
                        ) {
                            None => miss(rec, after),
                            Some(t) => Outcome {
                                hit: true,
                                rec: HitRecord {
                                    t: t as i64,
                                    point: r.at_spec(t),
                                    material: self.phase_function,
                                    ..rec
                                },
                                next: after,
                            },
                        }
                    }
                }
            }
        }
    }

    /// The box of a medium is the box of its boundary.
    open spec fn box_spec(&self, shapes: Seq<Shape>, me: int) -> Aabb
        decreases me, 0int,
    {
        if self.boundary < me {
            World::box_of(shapes, self.boundary as int)
        } else {
            Aabb::empty_spec()
        }
    }

    fn hit(
        &self,
        world: &World,
        me: usize,
        r: &Ray,
        ray_t: Interval,
        rec: &mut HitRecord,
        sampler: &mut Sampler,
    ) -> (b: bool)
        decreases me, 0int,
    {
        assert(self.wf_at(me as int));
        let mut rec1 = HitRecord::default();
        let mut rec2 = HitRecord::default();
        if !world.hit(self.boundary, r, Interval::universe(), &mut rec1, sampler) {
            return false;
        }
        if !world.hit(
            self.boundary,
            r,
            Interval::new(sat_add(rec1.t, MEDIUM_EPSILON), INFINITY),
            &mut rec2,
            sampler,
        ) {
            return false;
        }
        let t1: i64 = ray_t.clamp(rec1.t);
        let t2: i64 = ray_t.clamp(rec2.t);
        if t1 >= t2 {
            return false;
        }
        let entry: i64 = fmax(t1, 0);
        let ray_length: i64 = r.direction().length();
        let distance_inside: i64 = fmul(sat_sub(t2, entry), ray_length);
        let draw: Sample = sampler.take();
        let hit_distance: i64 = fmul(self.neg_inv_density, draw.log_uniform);
        if hit_distance > distance_inside {
            return false;
        }
        rec.t = sat_add(entry, fdiv(hit_distance, ray_length));
        rec.point = r.at(rec.t);
        rec.material = self.phase_function;
        true
    }

    fn bounding_box(&self, world: &World, me: usize) -> (b: Aabb)
        decreases me, 0int,
    {
        world.bounding_box(self.boundary)
    }

    fn instancing(self, world: &mut World) -> (h: usize) {
        world.add(Shape::Medium(self))
    }
}

/// The box built up over the first `k` handles is the same for two
/// sequences that agree on them.
pub proof fn lemma_fold_same(shapes: Seq<Shape>, h1: Seq<usize>, h2: Seq<usize>, k: int)
    requires
        0 <= k <= h1.len(),
        k <= h2.len(),
        forall|i: int| 0 <= i < k ==> h1[i] == h2[i],
    ensures
        fold_box(shapes, h1, 0, k) == fold_box(shapes, h2, 0, k),
    decreases k,
{
    if k > 0 {
        lemma_fold_same(shapes, h1, h2, k - 1);
    }
}

/// Adding shapes to the arena changes nothing for the shapes that stood in
/// it before: a ray hits them as it did.
pub proof fn lemma_hit_prefix(
    shorter: Seq<Shape>,
    longer: Seq<Shape>,
    h: int,
    r: Ray,
    ray_t: Interval,
    rec: HitRecord,
    tape: Seq<Sample>,
    next: usize,
)
    requires
        is_prefix(shorter, longer),
        0 <= h < shorter.len(),
    ensures
        World::hit_spec(longer, h, r, ray_t, rec, tape, next) == World::hit_spec(
            shorter,
            h,
            r,
            ray_t,
            rec,
            tape,
            next,
        ),
    decreases h, 1int, 0int,
{
    match shorter[h] {
        Shape::Sphere(_) => {},
        Shape::Quad(_) => {},
        Shape::List(l) => {
            lemma_walk_prefix(
                l,
                shorter,
                longer,
                h,
                l.objects@.len() as int,
                r,
                ray_t,
                rec,
                tape,
                next,
            );
        },
        Shape::Bvh(n) => {
            if n.left < h && n.right < h {
                lemma_hit_prefix(shorter, longer, n.left as int, r, ray_t, rec, tape, next);
                let a = World::hit_spec(shorter, n.left as int, r, ray_t, rec, tape, next);
                lemma_hit_prefix(
                    shorter,
                    longer,
                    n.right as int,
                    r,
                    Interval {
                        tmin: ray_t.tmin,
                        tmax: if a.hit {
                            a.rec.t
                        } else {
                            ray_t.tmax
                        },
                    },
                    a.rec,
                    tape,
                    a.next,
                );
            }
        },
        Shape::Translate(t) => {
            if t.objects < h {
                lemma_hit_prefix(
                    shorter,
                    longer,
                    t.objects as int,
                    t.moved_ray(r),
                    ray_t,
                    rec,
                    tape,
                    next,
                );
            }
        },
        Shape::RotateY(t) => {
            if t.objects < h {
                lemma_hit_prefix(
                    shorter,
                    longer,
                    t.objects as int,
                    t.turned_ray(r),
                    ray_t,
                    rec,
                    tape,
                    next,
                );
            }
        },
        Shape::Medium(m) => {
            if m.boundary < h {
                lemma_hit_prefix(
                    shorter,
                    longer,
                    m.boundary as int,
                    r,
                    Interval::universe_spec(),
                    HitRecord::default_spec(),
                    tape,
                    next,
                );
                let o1 = World::hit_spec(
                    shorter,
                    m.boundary as int,
                    r,
                    Interval::universe_spec(),
                    HitRecord::default_spec(),
                    tape,
                    next,
                );
                lemma_hit_prefix(
                    shorter,
                    longer,
                    m.boundary as int,
                    r,
                    Interval { tmin: saturate(o1.rec.t + MEDIUM_EPSILON) as i64, tmax: INFINITY },
                    HitRecord::default_spec(),
                    tape,
                    o1.next,
                );
            }
        },
    }
}

/// The walk through a list changes nothing when shapes are added to the
/// arena.
pub proof fn lemma_walk_prefix(
    l: Hittable_list,
    shorter: Seq<Shape>,
    longer: Seq<Shape>,
    me: int,
    k: int,
    r: Ray,
    ray_t: Interval,
    rec: HitRecord,
    tape: Seq<Sample>,
    next: usize,
)
    requires
        is_prefix(shorter, longer),
        0 <= me <= shorter.len(),
    ensures
        l.walk(longer, me, k, r, ray_t, rec, tape, next) == l.walk(
            shorter,
            me,
            k,
            r,
            ray_t,
            rec,
            tape,
            next,
        ),
    decreases me, 0int, k,
{
    if 0 < k <= l.objects@.len() {
        lemma_walk_prefix(l, shorter, longer, me, k - 1, r, ray_t, rec, tape, next);
        let before = l.walk(shorter, me, k - 1, r, ray_t, rec, tape, next);
        let part = l.objects@[k - 1];
        if part < me {
            lemma_hit_prefix(
                shorter,
                longer,
                part as int,
                r,
                Interval { tmin: ray_t.tmin, tmax: before.closest_so_far },
                before.rec_tmp,
                tape,
                before.next,
            );
        }
    }
}

/// Every medium under the handle `h` is one that a tape of true draws can
/// be read for: its density is positive, so that `neg_inv_density` is not,
/// and no logarithm on the tape is positive. Where no medium lies under
/// `h`, nothing is asked of the tape.
pub open spec fn media_sound(shapes: Seq<Shape>, h: int, tape: Seq<Sample>) -> bool
    decreases h,
{
    if !(0 <= h < shapes.len()) {
        true
    } else {
        match shapes[h] {
            Shape::Sphere(_) => true,
            Shape::Quad(_) => true,
            Shape::List(l) => forall|i: int|
                0 <= i < l.objects@.len() && (#[trigger] l.objects@[i]) < h ==> media_sound(
                    shapes,
                    l.objects@[i] as int,
                    tape,
                ),
            Shape::Bvh(n) => {
                &&& n.left < h ==> media_sound(shapes, n.left as int, tape)
                &&& n.right < h ==> media_sound(shapes, n.right as int, tape)
            },
            Shape::Translate(t) => t.objects < h ==> media_sound(shapes, t.objects as int, tape),
            Shape::RotateY(t) => t.objects < h ==> media_sound(shapes, t.objects as int, tape),
            Shape::Medium(m) => {
                &&& m.neg_inv_density <= 0
                &&& forall|i: int| 0 <= i < tape.len() ==> (#[trigger] tape[i]).log_uniform <= 0
                &&& m.boundary < h ==> media_sound(shapes, m.boundary as int, tape)
            },
        }
    }
}

/// A ray that does not move hits nothing.
pub proof fn lemma_still_ray_misses(
    shapes: Seq<Shape>,
    h: int,
    r: Ray,
    ray_t: Interval,
    rec: HitRecord,
    tape: Seq<Sample>,
    next: usize,
)
    requires
        r.b_direction == (Vec3 { x: 0, y: 0, z: 0 }),
    ensures
        !World::hit_spec(shapes, h, r, ray_t, rec, tape, next).hit,
    decreases h, 1int, 0int,
{
    if 0 <= h < shapes.len() {
        match shapes[h] {
            Shape::Sphere(s) => {
                assert(s.quadratic(r).a == 0) by (nonlinear_arith)
                    requires
                        s.quadratic(r).a == r.b_direction.x * r.b_direction.x + r.b_direction.y
                            * r.b_direction.y + r.b_direction.z * r.b_direction.z,
                        r.b_direction.x == 0,
                        r.b_direction.y == 0,
                        r.b_direction.z == 0,
                ;
            },
            Shape::Quad(q) => {
                let along = q.n.dot_spec(r.b_direction);
                assert(along == 0) by (nonlinear_arith)
                    requires
                        along == q.n.x * r.b_direction.x + q.n.y * r.b_direction.y + q.n.z
                            * r.b_direction.z,
                        r.b_direction.x == 0,
                        r.b_direction.y == 0,
                        r.b_direction.z == 0,
                ;
                assert((along * 1000) * (along * 1000) == 0) by (nonlinear_arith)
                    requires
                        along == 0,
                ;
            },
            Shape::List(l) => {
                lemma_still_walk_misses(
                    l,
                    shapes,
                    h,
                    l.objects@.len() as int,
                    r,
                    ray_t,
                    rec,
                    tape,
                    next,
                );
            },
            Shape::Bvh(n) => {
                if n.left < h && n.right < h {
                    lemma_still_ray_misses(shapes, n.left as int, r, ray_t, rec, tape, next);
                    let a = World::hit_spec(shapes, n.left as int, r, ray_t, rec, tape, next);
                    lemma_still_ray_misses(
                        shapes,
                        n.right as int,
                        r,
                        Interval {
                            tmin: ray_t.tmin,
                            tmax: if a.hit {
                                a.rec.t
                            } else {
                                ray_t.tmax
                            },
                        },
                        a.rec,
                        tape,
                        a.next,
                    );
                }
            },
            Shape::Translate(t) => {
                if t.objects < h {
                    lemma_still_ray_misses(
                        shapes,
                        t.objects as int,
                        t.moved_ray(r),
                        ray_t,
                        rec,
                        tape,
                        next,
                    );
                }
            },
            Shape::RotateY(t) => {
                if t.objects < h {
                    assert forall|x: int| fmul_spec(x, 0) == 0 by {
                        assert(x * 0 == 0) by (nonlinear_arith);
                    }
                    lemma_still_ray_misses(
                        shapes,
                        t.objects as int,
                        t.turned_ray(r),
                        ray_t,
                        rec,
                        tape,
                        next,
                    );
                }
            },
            Shape::Medium(m) => {
                if m.boundary < h {
                    lemma_still_ray_misses(
                        shapes,
                        m.boundary as int,
                        r,
                        Interval::universe_spec(),
                        HitRecord::default_spec(),
                        tape,
                        next,
                    );
                }
            },
        }
    }
}

/// A ray that does not move hits no part of a list.
pub proof fn lemma_still_walk_misses(
    l: Hittable_list,
    shapes: Seq<Shape>,
    me: int,
    k: int,
    r: Ray,
    ray_t: Interval,
    rec: HitRecord,
    tape: Seq<Sample>,
    next: usize,
)
    requires
        r.b_direction == (Vec3 { x: 0, y: 0, z: 0 }),
    ensures
        !l.walk(shapes, me, k, r, ray_t, rec, tape, next).hit_anything,
    decreases me, 0int, k,
{
    if 0 < k <= l.objects@.len() {
        lemma_still_walk_misses(l, shapes, me, k - 1, r, ray_t, rec, tape, next);
        let before = l.walk(shapes, me, k - 1, r, ray_t, rec, tape, next);
        let part = l.objects@[k - 1];
        if part < me {
            lemma_still_ray_misses(
                shapes,
                part as int,
                r,
                Interval { tmin: ray_t.tmin, tmax: before.closest_so_far },
                before.rec_tmp,
                tape,
                before.next,
            );
        }
    }
}

/// Where a ray scatters inside a medium of positive density, for a draw
/// whose logarithm is not positive, lies between its way in and its way
/// out.
pub proof fn lemma_scatter_between(
    neg_inv_density: int,
    log_uniform: int,
    t1: int,
    t2: int,
    ray_length: int,
)
    requires
        neg_inv_density <= 0,
        log_uniform <= 0,
        ray_length >= 1,
        NEG_INFINITY <= t1 < t2 <= INFINITY,
        scatter_point(neg_inv_density, log_uniform, t1, t2, ray_length).is_some(),
    ensures
        t1 <= scatter_point(neg_inv_density, log_uniform, t1, t2, ray_length).unwrap() <= t2,
{
    let u = UNIT as int;
    let entry = max_spec(t1, 0);
    let x = saturate(t2 - entry);
    let inside = fmul_spec(x, ray_length);
    let flight = fmul_spec(neg_inv_density, log_uniform);
    assert(neg_inv_density * log_uniform >= 0) by (nonlinear_arith)
        requires
            neg_inv_density <= 0,
            log_uniform <= 0,
    ;
    crate::scalar::lemma_floor_div_bounds(neg_inv_density * log_uniform, u);
    let f0 = (neg_inv_density * log_uniform) / u;
    assert(f0 >= 0) by (nonlinear_arith)
        requires
            (f0 + 1) * u > neg_inv_density * log_uniform,
            neg_inv_density * log_uniform >= 0,
            u > 0,
    ;
    assert(flight >= 0);
    // the way through the medium is not negative
    crate::scalar::lemma_floor_div_bounds(x * ray_length, u);
    let i0 = (x * ray_length) / u;
    assert(inside >= 0);
    assert(i0 >= 0);
    assert(x >= 0) by (nonlinear_arith)
        requires
            i0 * u <= x * ray_length,
            i0 >= 0,
            u > 0,
            ray_length >= 1,
    ;
    assert(x == t2 - entry);
    // the flight is no longer than the way
    crate::scalar::lemma_floor_div_bounds(flight * u, ray_length);
    let q = (flight * u) / ray_length;
    assert(flight <= i0);
    assert(flight * u <= x * ray_length) by (nonlinear_arith)
        requires
            flight <= i0,
            i0 * u <= x * ray_length,
            u > 0,
    ;
    assert(0 <= q <= x) by (nonlinear_arith)
        requires
            q * ray_length <= flight * u,
            flight * u < (q + 1) * ray_length,
            flight * u <= x * ray_length,
            flight >= 0,
            u > 0,
            ray_length >= 1,
    ;
}

/// A miss leaves the record as it was. A hit lies within the range of
/// parameters that was asked for, where that range holds anything at all
/// and the media are sound, see [`media_sound`].
pub proof fn lemma_hit_in_range(
    shapes: Seq<Shape>,
    h: int,
    r: Ray,
    ray_t: Interval,
    rec: HitRecord,
    tape: Seq<Sample>,
    next: usize,
)
    ensures
        !World::hit_spec(shapes, h, r, ray_t, rec, tape, next).hit ==> World::hit_spec(
            shapes,
            h,
            r,
            ray_t,
            rec,
            tape,
            next,
        ).rec == rec,
        World::hit_spec(shapes, h, r, ray_t, rec, tape, next).hit && media_sound(shapes, h, tape)
            && ray_t.tmin <= ray_t.tmax ==> ray_t.tmin <= World::hit_spec(
            shapes,
            h,
            r,
            ray_t,
            rec,
            tape,
            next,
        ).rec.t <= ray_t.tmax,
    decreases h, 1int, 0int,
{
    if 0 <= h < shapes.len() {
        match shapes[h] {
            Shape::Sphere(_) => {},
            Shape::Quad(_) => {},
            Shape::List(l) => {
                lemma_walk_in_range(
                    l,
                    shapes,
                    h,
                    l.objects@.len() as int,
                    r,
                    ray_t,
                    rec,
                    tape,
                    next,
                );
            },
            Shape::Bvh(n) => {
                if n.left < h && n.right < h {
                    lemma_hit_in_range(shapes, n.left as int, r, ray_t, rec, tape, next);
                    let a = World::hit_spec(shapes, n.left as int, r, ray_t, rec, tape, next);
                    lemma_hit_in_range(
                        shapes,
                        n.right as int,
                        r,
                        Interval {
                            tmin: ray_t.tmin,
                            tmax: if a.hit {
                                a.rec.t
                            } else {
                                ray_t.tmax
                            },
                        },
                        a.rec,
                        tape,
                        a.next,
                    );
                }
            },
            Shape::Translate(t) => {
                if t.objects < h {
                    lemma_hit_in_range(
                        shapes,
                        t.objects as int,
                        t.moved_ray(r),
                        ray_t,
                        rec,
                        tape,
                        next,
                    );
                }
            },
            Shape::RotateY(t) => {
                if t.objects < h {
                    lemma_hit_in_range(
                        shapes,
                        t.objects as int,
                        t.turned_ray(r),
                        ray_t,
                        rec,
                        tape,
                        next,
                    );
                }
            },
            Shape::Medium(m) => {
                let out = World::hit_spec(shapes, h, r, ray_t, rec, tape, next);
                if out.hit && media_sound(shapes, h, tape) && ray_t.tmin <= ray_t.tmax {
                    let o1 = World::hit_spec(
                        shapes,
                        m.boundary as int,
                        r,
                        Interval::universe_spec(),
                        HitRecord::default_spec(),
                        tape,
                        next,
                    );
                    let o2 = World::hit_spec(
                        shapes,
                        m.boundary as int,
                        r,
                        Interval { tmin: saturate(o1.rec.t + MEDIUM_EPSILON) as i64, tmax: INFINITY },
                        HitRecord::default_spec(),
                        tape,
                        o1.next,
                    );
                    let square = r.b_direction.dot_spec(r.b_direction);
                    let d = r.b_direction;
                    assert(d.x * d.x >= 0 && d.y * d.y >= 0 && d.z * d.z >= 0)
                        by (nonlinear_arith);
                    crate::scalar::lemma_sqrt_exists(square);
                    let length = sqrt_floor(square);
                    if length == 0 {
                        assert(square == 0) by (nonlinear_arith)
                            requires
                                square < (length + 1) * (length + 1),
                                length == 0,
                                square >= 0,
                        ;
                        assert(d.x == 0 && d.y == 0 && d.z == 0) by (nonlinear_arith)
                            requires
                                d.x * d.x + d.y * d.y + d.z * d.z == 0,
                                d.x * d.x >= 0,
                                d.y * d.y >= 0,
                                d.z * d.z >= 0,
                        ;
                        lemma_still_ray_misses(
                            shapes,
                            m.boundary as int,
                            r,
                            Interval::universe_spec(),
                            HitRecord::default_spec(),
                            tape,
                            next,
                        );
                    }
                    let t1 = ray_t.clamp_spec(o1.rec.t as int);
                    let t2 = ray_t.clamp_spec(o2.rec.t as int);
                    let draw = draw_at(tape, o2.next as int);
                    assert(draw.log_uniform <= 0) by {
                        if tape.len() > 0 {
                            assert(draw == tape[(o2.next as int) % (tape.len() as int)]);
                        }
                    }
                    lemma_scatter_between(
                        m.neg_inv_density as int,
                        draw.log_uniform as int,
                        t1,
                        t2,
                        length,
                    );
                }
            },
        }
    }
}

/// While a list is walked through, the nearest hit so far lies within the
/// range that was asked for, and only a hit changes the record.
pub proof fn lemma_walk_in_range(
    l: Hittable_list,
    shapes: Seq<Shape>,
    me: int,
    k: int,
    r: Ray,
    ray_t: Interval,
    rec: HitRecord,
    tape: Seq<Sample>,
    next: usize,
)
    ensures
        ({
            let st = l.walk(shapes, me, k, r, ray_t, rec, tape, next);
            &&& !st.hit_anything ==> st.rec == rec && st.closest_so_far == ray_t.tmax
            &&& st.hit_anything ==> st.rec.t == st.closest_so_far
            &&& st.hit_anything && ray_t.tmin <= ray_t.tmax && (forall|i: int|
                0 <= i < l.objects@.len() && (#[trigger] l.objects@[i]) < me ==> media_sound(
                    shapes,
                    l.objects@[i] as int,
                    tape,
                )) ==> ray_t.tmin <= st.closest_so_far <= ray_t.tmax
        }),
    decreases me, 0int, k,
{
    if 0 < k <= l.objects@.len() {
        lemma_walk_in_range(l, shapes, me, k - 1, r, ray_t, rec, tape, next);
        let before = l.walk(shapes, me, k - 1, r, ray_t, rec, tape, next);
        let part = l.objects@[k - 1];
        if part < me {
            lemma_hit_in_range(
                shapes,
                part as int,
                r,
                Interval { tmin: ray_t.tmin, tmax: before.closest_so_far },
                before.rec_tmp,
                tape,
                before.next,
            );
        }
    }
}

/// Under the handle `h` lie only spheres and quads, lists of them, and
/// moved and turned ones: no medium and no tree.
pub open spec fn plain(shapes: Seq<Shape>, h: int) -> bool
    decreases h,
{
    if !(0 <= h < shapes.len()) {
        true
    } else {
        match shapes[h] {
            Shape::Sphere(_) => true,
            Shape::Quad(_) => true,
            Shape::List(l) => forall|i: int|
                0 <= i < l.objects@.len() && (#[trigger] l.objects@[i]) < h ==> plain(
                    shapes,
                    l.objects@[i] as int,
                ),
            Shape::Bvh(_) => false,
            Shape::Translate(t) => t.objects < h ==> plain(shapes, t.objects as int),
            Shape::RotateY(t) => t.objects < h ==> plain(shapes, t.objects as int),
            Shape::Medium(_) => false,
        }
    }
}

/// What two tests of one shape against one ray have to do with each other
/// when the one asks for a range that ends at `shorter` and the other for
/// the same range up to `longer`: a hit of the first is the hit of the
/// second, and a hit of the second alone lies at or beyond `shorter`.
/// Neither reads the tape.
pub open spec fn agree(
    short: Outcome,
    long: Outcome,
    shorter: i64,
    longer: i64,
    next: usize,
) -> bool {
    &&& short.next == next
    &&& long.next == next
    &&& short.hit ==> long.hit && long.rec == short.rec
    &&& long.hit && !short.hit ==> long.rec.t >= shorter
    &&& short.hit ==> short.rec.t <= shorter
    &&& long.hit ==> long.rec.t <= longer
}

/// Shortening the range of parameters from its far end changes nothing
/// for a hit of a plain shape that lies within the shorter range, whatever
/// the record held before; a hit that is found only within the longer range
/// lies at or beyond the end of the shorter.
pub proof fn lemma_hit_range(
    shapes: Seq<Shape>,
    h: int,
    r: Ray,
    tmin: i64,
    shorter: i64,
    longer: i64,
    rec_short: HitRecord,
    rec_long: HitRecord,
    tape: Seq<Sample>,
    next: usize,
)
    requires
        plain(shapes, h),
        shorter <= longer,
    ensures
        agree(
            World::hit_spec(
                shapes,
                h,
                r,
                Interval { tmin, tmax: shorter },
                rec_short,
                tape,
                next,
            ),
            World::hit_spec(shapes, h, r, Interval { tmin, tmax: longer }, rec_long, tape, next),
            shorter,
            longer,
            next,
        ),
    decreases h, 1int, 0int,
{
    if 0 <= h < shapes.len() {
        match shapes[h] {
            Shape::Sphere(s) => {
                lemma_sphere_range(s, r, tmin, shorter, longer);
            },
            Shape::Quad(q) => {
                lemma_quad_range(q, r, tmin, shorter, longer);
            },
            Shape::List(l) => {
                lemma_walk_range(
                    l,
                    shapes,
                    h,
                    l.objects@.len() as int,
                    r,
                    tmin,
                    shorter,
                    longer,
                    rec_short,
                    rec_long,
                    tape,
                    next,
                );
            },
            Shape::Bvh(_) => {},
            Shape::Translate(t) => {
                if t.objects < h {
                    lemma_hit_range(
                        shapes,
                        t.objects as int,
                        t.moved_ray(r),
                        tmin,
                        shorter,
                        longer,
                        rec_short,
                        rec_long,
                        tape,
                        next,
                    );
                }
            },
            Shape::RotateY(t) => {
                if t.objects < h {
                    lemma_hit_range(
                        shapes,
                        t.objects as int,
                        t.turned_ray(r),
                        tmin,
                        shorter,
                        longer,
                        rec_short,
                        rec_long,
                        tape,
                        next,
                    );
                }
            },
            Shape::Medium(_) => {},
        }
    }
}

/// How the walks through one list for a shorter and for a longer range
/// stand to each other after the same number of parts.
pub open spec fn walks_agree(
    short: ListState,
    long: ListState,
    shorter: i64,
    longer: i64,
    next: usize,
) -> bool {
    &&& short.next == next
    &&& long.next == next
    &&& short.closest_so_far <= shorter
    &&& long.closest_so_far <= longer
    &&& !long.hit_anything ==> long.closest_so_far == longer
    &&& short.hit_anything ==> long.hit_anything && long.rec == short.rec && long.closest_so_far
        == short.closest_so_far
    &&& !short.hit_anything ==> short.closest_so_far == shorter
    &&& long.hit_anything && !short.hit_anything ==> long.closest_so_far >= shorter
    &&& long.hit_anything ==> long.rec.t == long.closest_so_far
    &&& short.hit_anything ==> short.rec.t == short.closest_so_far
}

/// The walks through a list of plain shapes for a shorter and for a longer
/// range agree as [`walks_agree`] says.
pub proof fn lemma_walk_range(
    l: Hittable_list,
    shapes: Seq<Shape>,
    me: int,
    k: int,
    r: Ray,
    tmin: i64,
    shorter: i64,
    longer: i64,
    rec_short: HitRecord,
    rec_long: HitRecord,
    tape: Seq<Sample>,
    next: usize,
)
    requires
        shorter <= longer,
        forall|i: int|
            0 <= i < l.objects@.len() && (#[trigger] l.objects@[i]) < me ==> plain(
                shapes,
                l.objects@[i] as int,
            ),
    ensures
        walks_agree(
            l.walk(shapes, me, k, r, Interval { tmin, tmax: shorter }, rec_short, tape, next),
            l.walk(shapes, me, k, r, Interval { tmin, tmax: longer }, rec_long, tape, next),
            shorter,
            longer,
            next,
        ),
    decreases me, 0int, k,
{
    if 0 < k <= l.objects@.len() {
        lemma_walk_range(
            l,
            shapes,
            me,
            k - 1,
            r,
            tmin,
            shorter,
            longer,
            rec_short,
            rec_long,
            tape,
            next,
        );
        let short = l.walk(
            shapes,
            me,
            k - 1,
            r,
            Interval { tmin, tmax: shorter },
            rec_short,
            tape,
            next,
        );
        let long = l.walk(
            shapes,
            me,
            k - 1,
            r,
            Interval { tmin, tmax: longer },
            rec_long,
            tape,
            next,
        );
        let part = l.objects@[k - 1];
        if part < me {
            assert(plain(shapes, part as int));
            lemma_hit_range(
                shapes,
                part as int,
                r,
                tmin,
                short.closest_so_far,
                long.closest_so_far,
                short.rec_tmp,
                long.rec_tmp,
                tape,
                next,
            );
            if short.closest_so_far == long.closest_so_far {
                // one and the same test, but for what the record held before
                lemma_hit_range(
                    shapes,
                    part as int,
                    r,
                    tmin,
                    long.closest_so_far,
                    short.closest_so_far,
                    long.rec_tmp,
                    short.rec_tmp,
                    tape,
                    next,
                );
            }
        }
    }
}

/// Every part of the list with a handle below `me` is plain.
pub open spec fn plain_parts(l: Hittable_list, shapes: Seq<Shape>, me: int) -> bool {
    forall|i: int|
        0 <= i < l.objects@.len() && (#[trigger] l.objects@[i]) < me ==> plain(
            shapes,
            l.objects@[i] as int,
        )
}

/// While a list of plain shapes is walked through, the nearest hit so far
/// only comes nearer, and a hit stays a hit.
pub proof fn lemma_walk_descends(
    l: Hittable_list,
    shapes: Seq<Shape>,
    me: int,
    k: int,
    n: int,
    r: Ray,
    ray_t: Interval,
    rec: HitRecord,
    tape: Seq<Sample>,
    next: usize,
)
    requires
        plain_parts(l, shapes, me),
        0 <= k <= n <= l.objects@.len(),
    ensures
        l.walk(shapes, me, n, r, ray_t, rec, tape, next).closest_so_far <= l.walk(
            shapes,
            me,
            k,
            r,
            ray_t,
            rec,
            tape,
            next,
        ).closest_so_far,
        l.walk(shapes, me, k, r, ray_t, rec, tape, next).hit_anything ==> l.walk(
            shapes,
            me,
            n,
            r,
            ray_t,
            rec,
            tape,
            next,
        ).hit_anything,
    decreases n - k,
{
    if k < n {
        lemma_walk_descends(l, shapes, me, k, n - 1, r, ray_t, rec, tape, next);
        lemma_walk_range(
            l,
            shapes,
            me,
            n - 1,
            r,
            ray_t.tmin,
            ray_t.tmax,
            ray_t.tmax,
            rec,
            rec,
            tape,
            next,
        );
        let before = l.walk(shapes, me, n - 1, r, ray_t, rec, tape, next);
        let part = l.objects@[n - 1];
        if part < me {
            assert(plain(shapes, part as int));
            lemma_hit_range(
                shapes,
                part as int,
                r,
                ray_t.tmin,
                before.closest_so_far,
                before.closest_so_far,
                before.rec_tmp,
                before.rec_tmp,
                tape,
                next,
            );
        }
    }
}

/// A list of plain shapes keeps the nearest hit: where a part of the list
/// is hit by itself, the list is hit, and no farther away than the part.
pub proof fn lemma_list_keeps_nearest(
    l: Hittable_list,
    shapes: Seq<Shape>,
    me: int,
    i: int,
    r: Ray,
    ray_t: Interval,
    rec: HitRecord,
    rec_alone: HitRecord,
    tape: Seq<Sample>,
    next: usize,
)
    requires
        plain_parts(l, shapes, me),
        0 <= i < l.objects@.len(),
        l.objects@[i] < me,
        World::hit_spec(shapes, l.objects@[i] as int, r, ray_t, rec_alone, tape, next).hit,
    ensures
        l.hit_spec(shapes, me, r, ray_t, rec, tape, next).hit,
        l.hit_spec(shapes, me, r, ray_t, rec, tape, next).rec.t <= World::hit_spec(
            shapes,
            l.objects@[i] as int,
            r,
            ray_t,
            rec_alone,
            tape,
            next,
        ).rec.t,
{
    let part = l.objects@[i];
    let before = l.walk(shapes, me, i, r, ray_t, rec, tape, next);
    let after = l.walk(shapes, me, i + 1, r, ray_t, rec, tape, next);
    let end = l.walk(shapes, me, l.objects@.len() as int, r, ray_t, rec, tape, next);
    let alone = World::hit_spec(shapes, part as int, r, ray_t, rec_alone, tape, next);
    lemma_walk_range(l, shapes, me, i, r, ray_t.tmin, ray_t.tmax, ray_t.tmax, rec, rec, tape, next);
    assert(plain(shapes, part as int));
    lemma_hit_range(
        shapes,
        part as int,
        r,
        ray_t.tmin,
        before.closest_so_far,
        ray_t.tmax,
        before.rec_tmp,
        rec_alone,
        tape,
        next,
    );
    if before.closest_so_far == ray_t.tmax {
        lemma_hit_range(
            shapes,
            part as int,
            r,
            ray_t.tmin,
            ray_t.tmax,
            before.closest_so_far,
            rec_alone,
            before.rec_tmp,
            tape,
            next,
        );
    }
    assert(after.hit_anything && after.closest_so_far <= alone.rec.t);
    lemma_walk_range(
        l,
        shapes,
        me,
        i + 1,
        r,
        ray_t.tmin,
        ray_t.tmax,
        ray_t.tmax,
        rec,
        rec,
        tape,
        next,
    );
    lemma_walk_descends(l, shapes, me, i + 1, l.objects@.len() as int, r, ray_t, rec, tape, next);
    lemma_walk_range(
        l,
        shapes,
        me,
        l.objects@.len() as int,
        r,
        ray_t.tmin,
        ray_t.tmax,
        ray_t.tmax,
        rec,
        rec,
        tape,
        next,
    );
}

/// The hit of a list of plain shapes is the hit of one of its parts by
/// itself: of the part whose place in the list is returned.
pub proof fn lemma_list_hit_is_a_part(
    l: Hittable_list,
    shapes: Seq<Shape>,
    me: int,
    k: int,
    r: Ray,
    ray_t: Interval,
    rec: HitRecord,
    rec_alone: HitRecord,
    tape: Seq<Sample>,
    next: usize,
) -> (i: int)
    requires
        plain_parts(l, shapes, me),
        0 <= k <= l.objects@.len(),
        l.walk(shapes, me, k, r, ray_t, rec, tape, next).hit_anything,
    ensures
        0 <= i < k,
        l.objects@[i] < me,
        World::hit_spec(shapes, l.objects@[i] as int, r, ray_t, rec_alone, tape, next).hit,
        World::hit_spec(shapes, l.objects@[i] as int, r, ray_t, rec_alone, tape, next).rec
            == l.walk(shapes, me, k, r, ray_t, rec, tape, next).rec,
    decreases k,
{
    let before = l.walk(shapes, me, k - 1, r, ray_t, rec, tape, next);
    let part = l.objects@[k - 1];
    lemma_walk_range(
        l,
        shapes,
        me,
        k - 1,
        r,
        ray_t.tmin,
        ray_t.tmax,
        ray_t.tmax,
        rec,
        rec,
        tape,
        next,
    );
    if part < me && World::hit_spec(
        shapes,
        part as int,
        r,
        Interval { tmin: ray_t.tmin, tmax: before.closest_so_far },
        before.rec_tmp,
        tape,
        before.next,
    ).hit {
        assert(plain(shapes, part as int));
        lemma_hit_range(
            shapes,
            part as int,
            r,
            ray_t.tmin,
            before.closest_so_far,
            ray_t.tmax,
            before.rec_tmp,
            rec_alone,
            tape,
            next,
        );
        k - 1
    } else {
        lemma_list_hit_is_a_part(l, shapes, me, k - 1, r, ray_t, rec, rec_alone, tape, next)
    }
}

} // verus!
