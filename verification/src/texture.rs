//! Textures: the colour of a surface at a point.

use vstd::prelude::*;
use crate::color::{Frame, frame_pixels, frame_size};
use crate::hitable::World;
use crate::interval::Interval;
use crate::scalar::{fdiv, fdiv_spec, floor_div, floor_div_spec, fmul, fmul_spec, UNIT};
use crate::vec3::Vec3;

verus! {

/// One colour everywhere.
#[derive(Clone, Copy, Debug, PartialEq, Eq, Structural)]
pub struct SolidColor {
    pub albedo: Vec3,
}

/// Two textures in cubes that alternate in space; `inv_scale` is one over
/// the side of a cube, `even` and `odd` are handles of textures.
#[derive(Clone, Copy, Debug, PartialEq, Eq, Structural)]
pub struct CheckerTexture {
    pub inv_scale: i64,
    pub even: usize,
    pub odd: usize,
}

/// A picture that is laid over a surface by its surface coordinates.
pub struct ImageTexture {
    pub img: Frame,
}

/// Any texture. A checker names its two textures by handle: the position
/// in the arena of textures.
pub enum Texture {
    Solid(SolidColor),
    Checker(CheckerTexture),
    Image(ImageTexture),
}

/// What every texture can do: give the colour of a surface at a point,
/// and take its place among the textures of a scene.
///
/// A texture is always seen as the entry `me` of an arena, or as one that
/// is about to become that entry; the textures that it is made of, if any,
/// stand before it.
pub trait TextureTrait: Sized {
    /// The texture is sound as the entry `me` of its arena: it names only
    /// textures that stand before it.
    spec fn wf_at(&self, me: int) -> bool;

    /// The texture as an entry of the arena.
    spec fn as_texture(self) -> Texture;

    /// The colour at the point `p` with the surface coordinates `u` and
    /// `v`.
    spec fn value_spec(&self, textures: Seq<Texture>, me: int, u: i64, v: i64, p: Vec3) -> Vec3;

    fn value(&self, world: &World, me: usize, u: i64, v: i64, p: Vec3) -> (c: Vec3)
        requires
            world.wf(),
            me <= world.textures@.len(),
            self.wf_at(me as int),
        ensures
            c == self.value_spec(world.textures@, me as int, u, v, p),
    ;

    /// Puts the texture into the arena and gives its handle.
    fn instancing(self, world: &mut World) -> (h: usize)
        requires
            old(world).wf(),
            self.wf_at(old(world).textures@.len() as int),
        ensures
            final(world).wf(),
            h == old(world).textures@.len(),
            final(world).textures@ == old(world).textures@.push(self.as_texture()),
            final(world).shapes == old(world).shapes,
            final(world).materials == old(world).materials,
    ;
}

impl Texture {
    /// The texture is sound as the entry `me` of its arena: a checker names
    /// only textures that stand before it.
    pub open spec fn sound_at(&self, me: int) -> bool {
        match self {
            Texture::Solid(_) => true,
            Texture::Checker(c) => c.even < me && c.odd < me,
            Texture::Image(_) => true,
        }
    }
}

impl TextureTrait for Texture {
    open spec fn wf_at(&self, me: int) -> bool {
        self.sound_at(me)
    }

    open spec fn as_texture(self) -> Texture {
        self
    }

    open spec fn value_spec(&self, textures: Seq<Texture>, me: int, u: i64, v: i64, p: Vec3) -> Vec3
        decreases me, 1int,
    {
        match self {
            Texture::Solid(s) => s.value_spec(textures, me, u, v, p),
            Texture::Checker(c) => c.value_spec(textures, me, u, v, p),
            Texture::Image(t) => t.value_spec(textures, me, u, v, p),
        }
    }

    fn value(&self, world: &World, me: usize, u: i64, v: i64, p: Vec3) -> (c: Vec3)
        decreases me, 1int,
    {
        assert(self.sound_at(me as int));
        match self {
            Texture::Solid(s) => s.value(u, v, p),
            Texture::Checker(c) => c.value(world, me, u, v, p),
            Texture::Image(t) => t.value(u, v, p),
        }
    }

    fn instancing(self, world: &mut World) -> (h: usize) {
        world.add_texture(self)
    }
}

impl SolidColor {
    pub fn new(albedo: Vec3) -> (s: SolidColor)
        ensures
            s.albedo == albedo,
    {
        SolidColor { albedo }
    }

    pub fn value(&self, u: i64, v: i64, p: Vec3) -> (c: Vec3)
        ensures
            c == self.albedo,
    {
        self.albedo
    }
}

impl TextureTrait for SolidColor {
    open spec fn wf_at(&self, me: int) -> bool {
        true
    }

    open spec fn as_texture(self) -> Texture {
        Texture::Solid(self)
    }

    open spec fn value_spec(&self, textures: Seq<Texture>, me: int, u: i64, v: i64, p: Vec3) -> Vec3 {
        self.albedo
    }

    fn value(&self, world: &World, me: usize, u: i64, v: i64, p: Vec3) -> (c: Vec3) {
        self.albedo
    }

    fn instancing(self, world: &mut World) -> (h: usize) {
        world.add_texture(Texture::Solid(self))
    }
}

/// The cube, counted along one axis, in which the coordinate `c` lies.
pub open spec fn cell(inv_scale: int, c: int) -> int {
    floor_div_spec(fmul_spec(inv_scale, c), UNIT as int)
}

impl CheckerTexture {
    /// The point lies in a cube of the even kind: the cube's three counts
    /// add up to an even number.
    pub open spec fn is_even(&self, p: Vec3) -> bool {
        (cell(self.inv_scale as int, p.x as int) + cell(self.inv_scale as int, p.y as int) + cell(
            self.inv_scale as int,
            p.z as int,
        )) % 2 == 0
    }

    /// A checker of cubes of side `scale`.
    pub fn new(scale: i64, even: usize, odd: usize) -> (c: Self)
        ensures
            c.inv_scale == fdiv_spec(UNIT as int, scale as int),
            c.even == even,
            c.odd == odd,
    {
        Self { inv_scale: fdiv(UNIT, scale), even, odd }
    }

    /// A checker of two plain colours, which are added to the arena.
    pub fn new_from_color(scale: i64, even: Vec3, odd: Vec3, world: &mut World) -> (c: Self)
        requires
            old(world).wf(),
        ensures
            final(world).wf(),
            c.inv_scale == fdiv_spec(UNIT as int, scale as int),
            c.even == old(world).textures@.len(),
            c.odd == old(world).textures@.len() + 1,
            final(world).textures@ == old(world).textures@.push(
                Texture::Solid(SolidColor { albedo: even }),
            ).push(Texture::Solid(SolidColor { albedo: odd })),
            final(world).shapes == old(world).shapes,
            final(world).materials == old(world).materials,
    {
        let e: usize = SolidColor::new(even).instancing(world);
        let o: usize = SolidColor::new(odd).instancing(world);
        Self { inv_scale: fdiv(UNIT, scale), even: e, odd: o }
    }

    /// Which of the two textures colours the point `p`.
    pub fn pick(&self, p: Vec3) -> (h: usize)
        ensures
            h == if self.is_even(p) {
                self.even
            } else {
                self.odd
            },
    {
        let x: i128 = floor_div(fmul(self.inv_scale, p.x) as i128, UNIT as i128);
        let y: i128 = floor_div(fmul(self.inv_scale, p.y) as i128, UNIT as i128);
        let z: i128 = floor_div(fmul(self.inv_scale, p.z) as i128, UNIT as i128);
        proof {
            crate::scalar::lemma_floor_div_bounds(fmul_spec(self.inv_scale as int, p.x as int), UNIT as int);
            crate::scalar::lemma_floor_div_bounds(fmul_spec(self.inv_scale as int, p.y as int), UNIT as int);
            crate::scalar::lemma_floor_div_bounds(fmul_spec(self.inv_scale as int, p.z as int), UNIT as int);
        }
        let sum: i128 = x + y + z;
        if sum % 2 == 0 {
            self.even
        } else {
            self.odd
        }
    }
}

impl TextureTrait for CheckerTexture {
    open spec fn wf_at(&self, me: int) -> bool {
        self.even < me && self.odd < me
    }

    open spec fn as_texture(self) -> Texture {
        Texture::Checker(self)
    }

    /// The colour of the even texture in the cubes of the even kind, that
    /// of the odd texture in the others.
    open spec fn value_spec(&self, textures: Seq<Texture>, me: int, u: i64, v: i64, p: Vec3) -> Vec3
        decreases me, 0int,
    {
        if self.even < me && self.odd < me {
            if self.is_even(p) {
                World::texture_value_spec(textures, self.even as int, u, v, p)
            } else {
                World::texture_value_spec(textures, self.odd as int, u, v, p)
            }
        } else {
            Vec3 { x: 0, y: 0, z: 0 }
        }
    }

    fn value(&self, world: &World, me: usize, u: i64, v: i64, p: Vec3) -> (c: Vec3)
        decreases me, 0int,
    {
        assert(self.wf_at(me as int));
        world.texture_value(self.pick(p), u, v, p)
    }

    fn instancing(self, world: &mut World) -> (h: usize) {
        world.add_texture(Texture::Checker(self))
    }
}

/// The pixel, counted along one axis of `extent` pixels, under the surface
/// coordinate `c` between 0 and 1.
pub open spec fn pixel_under(c: int, extent: int) -> int {
    if (c * extent) / (UNIT as int) >= extent {
        extent - 1
    } else {
        (c * extent) / (UNIT as int)
    }
}

/// A byte as a channel between 0 and 1.
pub open spec fn channel_of(byte: int) -> int {
    (byte * UNIT) / 255
}

impl ImageTexture {
    /// The colour of the pixel under the surface coordinates: `u` runs from
    /// the left to the right of the picture, `v` from its bottom to its top,
    /// both brought into `[0, 1]`. A picture without pixels is cyan.
    pub open spec fn pixel_spec(&self, u: i64, v: i64) -> Vec3 {
        let (width, height) = frame_size(self.img);
        if width == 0 || height == 0 {
            Vec3 { x: 0, y: UNIT, z: UNIT }
        } else {
            let whole = Interval { tmin: 0, tmax: UNIT };
            let i = pixel_under(whole.clamp_spec(u as int), width as int);
            let j = pixel_under(UNIT - whole.clamp_spec(v as int), height as int);
            let pixel = frame_pixels(self.img)[(i, j)];
            Vec3 {
                x: channel_of(pixel.0 as int) as i64,
                y: channel_of(pixel.1 as int) as i64,
                z: channel_of(pixel.2 as int) as i64,
            }
        }
    }

    pub fn new(img: Frame) -> (t: Self)
        ensures
            t.img == img,
    {
        ImageTexture { img }
    }

    pub fn value(&self, u: i64, v: i64, p: Vec3) -> (c: Vec3)
        ensures
            c == self.pixel_spec(u, v),
    {
        let width: u32 = self.img.width();
        let height: u32 = self.img.height();
        if height == 0 || width == 0 {
            return Vec3::new(0, UNIT, UNIT);
        }
        let whole: Interval = Interval::new(0, UNIT);
        let u: i64 = whole.clamp(u);
        let v: i64 = UNIT - whole.clamp(v);
        let i: u32 = pixel_at(u, width);
        let j: u32 = pixel_at(v, height);
        match self.img.get(i, j) {
            Some(pixel) => Vec3::new(
                scale_byte(pixel.0),
                scale_byte(pixel.1),
                scale_byte(pixel.2),
            ),
            None => Vec3::new(0, UNIT, UNIT),
        }
    }
}

impl TextureTrait for ImageTexture {
    open spec fn wf_at(&self, me: int) -> bool {
        true
    }

    open spec fn as_texture(self) -> Texture {
        Texture::Image(self)
    }

    open spec fn value_spec(&self, textures: Seq<Texture>, me: int, u: i64, v: i64, p: Vec3) -> Vec3 {
        self.pixel_spec(u, v)
    }

    fn value(&self, world: &World, me: usize, u: i64, v: i64, p: Vec3) -> (c: Vec3) {
        self.value(u, v, p)
    }

    fn instancing(self, world: &mut World) -> (h: usize) {
        world.add_texture(Texture::Image(self))
    }
}

/// Computes [`pixel_under`].
pub fn pixel_at(c: i64, extent: u32) -> (r: u32)
    requires
        0 <= c <= UNIT,
        extent > 0,
    ensures
        r == pixel_under(c as int, extent as int),
        r < extent,
{
    assert(0 <= c * extent <= UNIT * 0xffff_ffff) by (nonlinear_arith)
        requires
            0 <= c <= UNIT,
            0 <= extent <= 0xffff_ffff,
    ;
    let at: i64 = (c * (extent as i64)) / UNIT;
    if at >= extent as i64 {
        extent - 1
    } else {
        at as u32
    }
}

/// Computes [`channel_of`].
pub fn scale_byte(byte: u8) -> (r: i64)
    ensures
        r == channel_of(byte as int),
        0 <= r <= UNIT,
{
    ((byte as i64) * UNIT) / 255
}

impl World {
    /// The colour of the texture with handle `h` at the point `p` with the
    /// surface coordinates `u` and `v`; black for a handle that names no
    /// texture.
    pub open spec fn texture_value_spec(
        textures: Seq<Texture>,
        h: int,
        u: i64,
        v: i64,
        p: Vec3,
    ) -> Vec3
        decreases h, 2int,
    {
        if !(0 <= h < textures.len()) {
            Vec3 { x: 0, y: 0, z: 0 }
        } else {
            textures[h].value_spec(textures, h, u, v, p)
        }
    }

    pub fn texture_value(&self, h: usize, u: i64, v: i64, p: Vec3) -> (c: Vec3)
        requires
            self.wf(),
        ensures
            c == Self::texture_value_spec(self.textures@, h as int, u, v, p),
        decreases h, 2int,
    {
        if h >= self.textures.len() {
            return Vec3::zero();
        }
        assert(self.textures@[h as int].sound_at(h as int));
        assert(self.textures@[h as int].wf_at(h as int));
        self.textures[h].value(self, h, u, v, p)
    }
}
} // verus!
