//! The camera: how an image is cut into tiles, how many tiles may be in
//! flight at once, and how a path of light is followed.

use vstd::prelude::*;
use vstd::arithmetic::div_mod::lemma_fundamental_div_mod;
use crate::hitable::{advance, draw_at, HitRecord, Sample, Sampler, World};
use crate::interval::Interval;
use crate::material::{Material, MaterialTrait};
use crate::ray::Ray;
use crate::scalar::{
    COORD_MAX, fdiv, fdiv_spec, fmul, fmul_spec, halved, halved_spec, INFINITY, sat_add, sat_sub,
    saturate, SPAN_MAX, tangent, tangent_spec, UNIT,
};
use crate::utils::{dot, dot_spec, unit_vec, unit_vec_spec};
use crate::vec3::Vec3;

verus! {

/// Rows of tiles in an image.
pub const HEIGHT_PARTITION: u32 = 20;

/// Columns of tiles in an image.
pub const WIDTH_PARTITION: u32 = 20;

/// The most tiles that may be rendered at the same time.
pub const THREAD_LIMIT: usize = 20;

/// A rectangle of pixels: the columns `x_min..x_max` of the rows
/// `y_min..y_max`.
#[derive(Clone, Copy, Debug, PartialEq, Eq, Structural)]
pub struct Tile {
    pub x_min: u32,
    pub x_max: u32,
    pub y_min: u32,
    pub y_max: u32,
}

/// Side of a tile: `extent / parts`, rounded up.
pub open spec fn chunk_spec(extent: int, parts: int) -> int {
    (extent + parts - 1) / parts
}

/// Where the part with index `i` starts on an axis of `extent` pixels cut
/// into `parts` parts: at `i` chunks, but never beyond the image.
pub open spec fn cut_spec(extent: int, parts: int, i: int) -> int {
    if i * chunk_spec(extent, parts) < extent {
        i * chunk_spec(extent, parts)
    } else {
        extent
    }
}

/// The tile in column `i` and row `j` of the image.
pub open spec fn tile_spec(width: int, height: int, i: int, j: int) -> Tile {
    Tile {
        x_min: cut_spec(width, WIDTH_PARTITION as int, i) as u32,
        x_max: cut_spec(width, WIDTH_PARTITION as int, i + 1) as u32,
        y_min: cut_spec(height, HEIGHT_PARTITION as int, j) as u32,
        y_max: cut_spec(height, HEIGHT_PARTITION as int, j + 1) as u32,
    }
}

impl Tile {
    /// The pixel in column `x` of row `y` belongs to the tile.
    pub open spec fn covers(&self, x: int, y: int) -> bool {
        self.x_min <= x < self.x_max && self.y_min <= y < self.y_max
    }

    pub open spec fn is_empty_spec(&self) -> bool {
        !(self.x_max > self.x_min && self.y_max > self.y_min)
    }

    /// The tile holds no pixel, so there is nothing to render for it.
    pub fn is_empty(&self) -> (r: bool)
        ensures
            r == self.is_empty_spec(),
            r <==> forall|x: int, y: int| !self.covers(x, y),
    {
        let r = !(self.x_max > self.x_min && self.y_max > self.y_min);
        proof {
            if !r {
                assert(self.covers(self.x_min as int, self.y_min as int));
            }
        }
        r
    }

    /// Pixels in a row of the tile.
    pub fn width(&self) -> (r: u32)
        requires
            self.x_min <= self.x_max,
        ensures
            r == self.x_max - self.x_min,
    {
        self.x_max - self.x_min
    }

    /// Rows of the tile.
    pub fn height(&self) -> (r: u32)
        requires
            self.y_min <= self.y_max,
        ensures
            r == self.y_max - self.y_min,
    {
        self.y_max - self.y_min
    }
}

/// Side of a tile on an axis of `extent` pixels that is cut into `parts`.
pub fn chunk_size(extent: u32, parts: u32) -> (r: u32)
    requires
        parts > 0,
    ensures
        r == chunk_spec(extent as int, parts as int),
        r * parts >= extent,
        extent > 0 ==> (r - 1) * parts < extent,
{
    let sum: u64 = extent as u64 + parts as u64 - 1;
    let r: u64 = sum / (parts as u64);
    proof {
        lemma_fundamental_div_mod(sum as int, parts as int);
        let m: int = (sum as int) % (parts as int);
        assert(r * parts >= extent && (extent > 0 ==> (r - 1) * parts < extent)) by (nonlinear_arith)
            requires
                sum == parts * r + m,
                0 <= m < parts,
                sum == extent + parts - 1,
                parts > 0,
                r >= 0,
                extent >= 0,
        ;
        assert(r <= 0xffff_ffff) by (nonlinear_arith)
            requires
                sum == parts * r + m,
                0 <= m,
                sum == extent + parts - 1,
                parts >= 1,
                r >= 0,
                extent <= 0xffff_ffff,
        ;
    }
    r as u32
}

/// Where part `i` starts, see [`cut_spec`].
pub fn cut(extent: u32, parts: u32, i: u32) -> (r: u32)
    requires
        parts > 0,
    ensures
        r == cut_spec(extent as int, parts as int, i as int),
        r <= extent,
{
    let chunk: u32 = chunk_size(extent, parts);
    assert(0 <= i * chunk <= 0xffff_ffff * 0xffff_ffff) by (nonlinear_arith)
        requires
            0 <= i <= 0xffff_ffff,
            0 <= chunk <= 0xffff_ffff,
    ;
    let at: u64 = (i as u64) * (chunk as u64);
    if at < extent as u64 {
        at as u32
    } else {
        extent
    }
}

/// The tile in column `i` and row `j` of an image of `width` by `height`
/// pixels.
pub fn tile_of(width: u32, height: u32, i: u32, j: u32) -> (t: Tile)
    requires
        i < WIDTH_PARTITION,
        j < HEIGHT_PARTITION,
    ensures
        t == tile_spec(width as int, height as int, i as int, j as int),
        t.x_min <= t.x_max <= width,
        t.y_min <= t.y_max <= height,
{
    let x_min = cut(width, WIDTH_PARTITION, i);
    let x_max = cut(width, WIDTH_PARTITION, i + 1);
    let y_min = cut(height, HEIGHT_PARTITION, j);
    let y_max = cut(height, HEIGHT_PARTITION, j + 1);
    proof {
        lemma_cut_monotonic(width as int, WIDTH_PARTITION as int, i as int);
        lemma_cut_monotonic(height as int, HEIGHT_PARTITION as int, j as int);
    }
    Tile { x_min, x_max, y_min, y_max }
}

/// Each part starts where the one before it ends, and no earlier.
pub proof fn lemma_cut_monotonic(extent: int, parts: int, i: int)
    requires
        extent >= 0,
        parts > 0,
        i >= 0,
    ensures
        0 <= cut_spec(extent, parts, i) <= cut_spec(extent, parts, i + 1) <= extent,
        cut_spec(extent, parts, 0) == 0,
        chunk_spec(extent, parts) >= 0,
{
    let c = chunk_spec(extent, parts);
    lemma_fundamental_div_mod(extent + parts - 1, parts);
    assert(c >= 0 && i * c <= (i + 1) * c && 0 * c == 0 && i * c >= 0) by (nonlinear_arith)
        requires
            extent + parts - 1 == parts * c + ((extent + parts - 1) % parts),
            0 <= (extent + parts - 1) % parts < parts,
            extent >= 0,
            parts > 0,
            i >= 0,
    ;
}

/// The last part ends where the image ends.
pub proof fn lemma_cut_reaches_end(extent: int, parts: int)
    requires
        extent >= 0,
        parts > 0,
    ensures
        cut_spec(extent, parts, parts) == extent,
{
    let c = chunk_spec(extent, parts);
    lemma_fundamental_div_mod(extent + parts - 1, parts);
    assert(parts * c >= extent) by (nonlinear_arith)
        requires
            extent + parts - 1 == parts * c + ((extent + parts - 1) % parts),
            0 <= (extent + parts - 1) % parts < parts,
    ;
}

/// On one axis, a pixel lies in the part whose index is the pixel's
/// position divided by the chunk, and in no other.
pub proof fn lemma_cut_owner(extent: int, parts: int, x: int, i: int)
    requires
        parts > 0,
        0 <= x < extent,
        0 <= i < parts,
    ensures
        0 <= x / chunk_spec(extent, parts) < parts,
        (cut_spec(extent, parts, i) <= x < cut_spec(extent, parts, i + 1)) <==> i == x
            / chunk_spec(extent, parts),
{
    let c = chunk_spec(extent, parts);
    lemma_fundamental_div_mod(extent + parts - 1, parts);
    assert(parts * c >= extent && c > 0) by (nonlinear_arith)
        requires
            extent + parts - 1 == parts * c + ((extent + parts - 1) % parts),
            0 <= (extent + parts - 1) % parts < parts,
            extent > 0,
            parts > 0,
    ;
    let q = x / c;
    lemma_fundamental_div_mod(x, c);
    assert(q * c <= x < (q + 1) * c) by (nonlinear_arith)
        requires
            x == c * q + (x % c),
            0 <= x % c < c,
    ;
    assert(0 <= q < parts) by (nonlinear_arith)
        requires
            q * c <= x,
            x < (q + 1) * c,
            x < extent,
            parts * c >= extent,
            c > 0,
            x >= 0,
    ;
    if cut_spec(extent, parts, i) <= x < cut_spec(extent, parts, i + 1) {
        assert(i * c <= x);
        assert(x < (i + 1) * c);
        assert(i == q) by (nonlinear_arith)
            requires
                i * c <= x,
                x < (i + 1) * c,
                q * c <= x,
                x < (q + 1) * c,
                c > 0,
        ;
    }
}

/// The tiles of an image cover it exactly: each tile lies inside the image,
/// and each pixel of the image belongs to one tile and to no other. So the
/// image is complete whatever the order in which the tiles are rendered.
pub proof fn lemma_tiles_partition(width: int, height: int, x: int, y: int)
    requires
        0 <= width <= u32::MAX,
        0 <= height <= u32::MAX,
    ensures
        forall|i: int, j: int|
            0 <= i < WIDTH_PARTITION && 0 <= j < HEIGHT_PARTITION && (#[trigger] tile_spec(
                width,
                height,
                i,
                j,
            )).covers(x, y) ==> 0 <= x < width && 0 <= y < height,
        0 <= x < width && 0 <= y < height ==> {
            let i0 = x / chunk_spec(width, WIDTH_PARTITION as int);
            let j0 = y / chunk_spec(height, HEIGHT_PARTITION as int);
            &&& 0 <= i0 < WIDTH_PARTITION
            &&& 0 <= j0 < HEIGHT_PARTITION
            &&& tile_spec(width, height, i0, j0).covers(x, y)
            &&& forall|i: int, j: int|
                0 <= i < WIDTH_PARTITION && 0 <= j < HEIGHT_PARTITION && (#[trigger] tile_spec(
                    width,
                    height,
                    i,
                    j,
                )).covers(x, y) ==> i == i0 && j == j0
        },
{
    let wp = WIDTH_PARTITION as int;
    let hp = HEIGHT_PARTITION as int;
    assert forall|i: int, j: int|
        0 <= i < WIDTH_PARTITION && 0 <= j < HEIGHT_PARTITION && (#[trigger] tile_spec(
            width,
            height,
            i,
            j,
        )).covers(x, y) implies 0 <= x < width && 0 <= y < height by {
        lemma_cut_monotonic(width, wp, i);
        lemma_cut_monotonic(height, hp, j);
    }
    if 0 <= x < width && 0 <= y < height {
        let i0 = x / chunk_spec(width, wp);
        let j0 = y / chunk_spec(height, hp);
        lemma_cut_owner(width, wp, x, 0);
        lemma_cut_owner(height, hp, y, 0);
        lemma_cut_owner(width, wp, x, i0);
        lemma_cut_owner(height, hp, y, j0);
        lemma_cut_monotonic(width, wp, i0);
        lemma_cut_monotonic(height, hp, j0);
        assert forall|i: int, j: int|
            0 <= i < WIDTH_PARTITION && 0 <= j < HEIGHT_PARTITION && (#[trigger] tile_spec(
                width,
                height,
                i,
                j,
            )).covers(x, y) implies i == i0 && j == j0 by {
            lemma_cut_monotonic(width, wp, i);
            lemma_cut_monotonic(height, hp, j);
            lemma_cut_owner(width, wp, x, i);
            lemma_cut_owner(height, hp, y, j);
        }
    }
}

/// The least parameter at which a ray may hit: a little past its origin,
/// so that a ray that leaves a surface does not hit it again at once.
pub const MIN_T: i64 = 100;

/// The camera: where it stands, what it looks at, and the grid of pixels
/// that it lays over the plane of focus.
#[derive(Clone, Copy, Debug, PartialEq, Eq, Structural)]
pub struct Camera {
    pub camera_center: Vec3,
    pub aspect_ratio: i64,
    pub width: u32,
    pub height: u32,
    pub pixel_delta_u: Vec3,
    pub pixel_delta_v: Vec3,
    pub pixel_zero_loc: Vec3,
    pub samples_per_pixel: u32,
    pub pixel_samples_scale: i64,
    pub max_depth: u32,
    pub vfov: i64,
    pub look_from: Vec3,
    pub look_at: Vec3,
    pub vup: Vec3,
    pub defocus_angle: i64,
    pub focus_dist: i64,
    pub defocus_disk_u: Vec3,
    pub defocus_disk_v: Vec3,
    pub background: Vec3,
}

/// What following a ray has given: the light that comes back along it, and
/// the position on the tape of draws.
pub struct Traced {
    pub color: Vec3,
    pub next: usize,
}

/// A count as a fixed-point scalar.
pub open spec fn whole(n: int) -> int {
    n * UNIT
}

/// The three axes of the camera: `w` from what it looks at towards it, `u`
/// to its right and `v` up.
pub open spec fn basis(look_from: Vec3, look_at: Vec3, vup: Vec3) -> (Vec3, Vec3, Vec3) {
    let w = unit_vec_spec(look_from.difference_spec(look_at));
    let u = unit_vec_spec(vup.cross_spec(w));
    let v = unit_vec_spec(w.cross_spec(u));
    (w, u, v)
}

impl Camera {
    /// The camera that [`Camera::from_tangents`] derives from its arguments.
    pub open spec fn from_tangents_spec(
        width: u32,
        height: u32,
        samples_per_pixel: u32,
        max_depth: u32,
        vfov: i64,
        vfov_half_tan: i64,
        look_from: Vec3,
        look_at: Vec3,
        vup: Vec3,
        defocus_angle: i64,
        defocus_half_tan: i64,
        focus_dist: i64,
        background: Vec3,
    ) -> Camera {
        let viewport_height = fmul_spec(fmul_spec(2 * UNIT, vfov_half_tan as int), focus_dist as int);
        let aspect_ratio = fdiv_spec(whole(width as int), whole(height as int));
        let viewport_width = fmul_spec(viewport_height, aspect_ratio);
        let (w, u, v) = basis(look_from, look_at, vup);
        let viewport_u = u.scale_spec(viewport_width);
        let viewport_v = v.scale_spec(saturate(-viewport_height));
        let pixel_delta_u = viewport_u.quotient_spec(whole(width as int));
        let pixel_delta_v = viewport_v.quotient_spec(whole(height as int));
        let viewport_upper_left = look_from.difference_spec(
            w.scale_spec(focus_dist as int),
        ).difference_spec(viewport_u.quotient_spec(2 * UNIT)).difference_spec(
            viewport_v.quotient_spec(2 * UNIT),
        );
        let defocus_radius = fmul_spec(focus_dist as int, defocus_half_tan as int);
        Camera {
            camera_center: look_from,
            aspect_ratio: aspect_ratio as i64,
            width,
            height,
            pixel_delta_u,
            pixel_delta_v,
            pixel_zero_loc: viewport_upper_left.sum_spec(
                pixel_delta_u.sum_spec(pixel_delta_v).scale_spec(UNIT / 2),
            ),
            samples_per_pixel,
            pixel_samples_scale: fdiv_spec(UNIT as int, whole(samples_per_pixel as int)) as i64,
            max_depth,
            vfov,
            look_from,
            look_at,
            vup,
            defocus_angle,
            focus_dist,
            defocus_disk_u: u.scale_spec(defocus_radius),
            defocus_disk_v: v.scale_spec(defocus_radius),
            background,
        }
    }

    /// The point of the lens for the point `p` of the unit disk.
    pub open spec fn lens_point(&self, p: Vec3) -> Vec3 {
        self.camera_center.sum_spec(self.defocus_disk_u.scale_spec(p.x as int)).sum_spec(
            self.defocus_disk_v.scale_spec(p.y as int),
        )
    }

    /// The ray through the pixel in column `i` of row `j`, moved within the
    /// pixel by `sample.square`, from the point of the lens for
    /// `sample.disk`, at the time `sample.uniform`.
    pub open spec fn ray_spec(&self, i: u32, j: u32, sample: Sample) -> Ray {
        let pixel_center = self.pixel_zero_loc.sum_spec(
            self.pixel_delta_u.scale_spec(saturate(whole(i as int) + sample.square.x)),
        ).sum_spec(self.pixel_delta_v.scale_spec(saturate(whole(j as int) + sample.square.y)));
        let ray_origin = if self.defocus_angle <= 0 {
            self.camera_center
        } else {
            self.lens_point(sample.disk)
        };
        Ray {
            a_origin: ray_origin,
            b_direction: pixel_center.difference_spec(ray_origin),
            time: sample.uniform,
        }
    }

    /// The light that comes back along the ray `r` from the shape `root` of
    /// the scene, followed over at most `depth` hits.
    ///
    /// No light comes back once `depth` is used up. A ray that hits nothing,
    /// or that has left the scene's range, brings the background. A hit
    /// brings what its material gives off, and, where the material scatters
    /// the ray, what comes back along the scattered ray, dimmed by the
    /// material's colour.
    pub open spec fn trace(
        &self,
        world: &World,
        root: int,
        r: Ray,
        depth: nat,
        tape: Seq<Sample>,
        next: usize,
    ) -> Traced
        decreases depth,
    {
        if depth == 0 {
            Traced { color: Vec3 { x: 0, y: 0, z: 0 }, next }
        } else if !r.in_range() {
            Traced { color: self.background, next }
        } else {
            let o = World::hit_spec(
                world.shapes@,
                root,
                r,
                Interval { tmin: MIN_T, tmax: INFINITY },
                HitRecord::default_spec(),
                tape,
                next,
            );
            if !o.hit {
                Traced { color: self.background, next: o.next }
            } else if !(o.rec.material < world.materials@.len()) {
                Traced { color: Vec3 { x: 0, y: 0, z: 0 }, next: o.next }
            } else {
                let material = world.materials@[o.rec.material as int];
                let emission = material.emitted_spec(
                    world.textures@,
                    o.rec.u,
                    o.rec.v,
                    o.rec.point,
                );
                let after = advance(tape, o.next as int) as usize;
                match material.scatter_spec(
                    world.textures@,
                    r,
                    o.rec,
                    draw_at(tape, o.next as int),
                ) {
                    None => Traced { color: emission, next: after },
                    Some((attenuation, scattered)) => {
                        let deeper = self.trace(
                            world,
                            root,
                            scattered,
                            (depth - 1) as nat,
                            tape,
                            after,
                        );
                        Traced {
                            color: emission.sum_spec(dot_spec(deeper.color, attenuation)),
                            next: deeper.next,
                        }
                    },
                }
            }
        }
    }

    /// Where a ray is followed over one hit only, no light is gathered
    /// beyond that hit: a ray in the scene's range that hits nothing brings
    /// the background, and a ray that hits a surface brings what the
    /// material of the surface gives off there, which is black for every
    /// material that gives off no light, whether it scatters the ray or not.
    pub proof fn lemma_one_hit_allowed(
        &self,
        world: &World,
        root: int,
        r: Ray,
        tape: Seq<Sample>,
        next: usize,
    )
        requires
            r.in_range(),
        ensures
            ({
                let o = World::hit_spec(
                    world.shapes@,
                    root,
                    r,
                    Interval { tmin: MIN_T, tmax: INFINITY },
                    HitRecord::default_spec(),
                    tape,
                    next,
                );
                let t = self.trace(world, root, r, 1, tape, next);
                &&& !o.hit ==> t.color == self.background
                &&& o.hit && o.rec.material < world.materials@.len() ==> t.color
                    == world.materials@[o.rec.material as int].emitted_spec(
                    world.textures@,
                    o.rec.u,
                    o.rec.v,
                    o.rec.point,
                )
            }),
    {
        reveal_with_fuel(Camera::trace, 3);
        assert forall|x: int| fmul_spec(0, x) == 0 by {
            assert(0 * x == 0) by (nonlinear_arith);
        }
    }

    /// Derives the camera from the image's size, the number of samples for
    /// each pixel, the most hits to follow a ray over, the vertical field of
    /// view in degrees, the eye, the point looked at, the upward direction,
    /// the angle of the lens as seen from the plane of focus in degrees, the
    /// distance of the plane of focus, and the background.
    pub fn new(
        width: u32,
        height: u32,
        samples_per_pixel: u32,
        max_depth: u32,
        vfov: i64,
        look_from: Vec3,
        look_at: Vec3,
        vup: Vec3,
        defocus_angle: i64,
        focus_dist: i64,
        background: Vec3,
    ) -> (c: Camera)
        requires
            look_from.within(COORD_MAX as int),
            look_at.within(COORD_MAX as int),
            vup.within(SPAN_MAX as int),
        ensures
            c == Self::from_tangents_spec(
                width,
                height,
                samples_per_pixel,
                max_depth,
                vfov,
                tangent_spec(halved_spec(vfov as int)) as i64,
                look_from,
                look_at,
                vup,
                defocus_angle,
                tangent_spec(halved_spec(defocus_angle as int)) as i64,
                focus_dist,
                background,
            ),
    {
        Self::from_tangents(
            width,
            height,
            samples_per_pixel,
            max_depth,
            vfov,
            tangent(halved(vfov)),
            look_from,
            look_at,
            vup,
            defocus_angle,
            tangent(halved(defocus_angle)),
            focus_dist,
            background,
        )
    }

    /// Derives the camera as [`Camera::new`] does, from the tangents of
    /// half the field of view and of half the angle of the lens.
    pub fn from_tangents(
        width: u32,
        height: u32,
        samples_per_pixel: u32,
        max_depth: u32,
        vfov: i64,
        vfov_half_tan: i64,
        look_from: Vec3,
        look_at: Vec3,
        vup: Vec3,
        defocus_angle: i64,
        defocus_half_tan: i64,
        focus_dist: i64,
        background: Vec3,
    ) -> (c: Camera)
        requires
            look_from.within(COORD_MAX as int),
            look_at.within(COORD_MAX as int),
            vup.within(SPAN_MAX as int),
        ensures
            c == Self::from_tangents_spec(
                width,
                height,
                samples_per_pixel,
                max_depth,
                vfov,
                vfov_half_tan,
                look_from,
                look_at,
                vup,
                defocus_angle,
                defocus_half_tan,
                focus_dist,
                background,
            ),
    {
        let camera_center = look_from;
        let viewport_height: i64 = fmul(fmul(2 * UNIT, vfov_half_tan), focus_dist);
        let width_whole: i64 = (width as i64) * 100_000;
        let height_whole: i64 = (height as i64) * 100_000;
        let aspect_ratio: i64 = fdiv(width_whole, height_whole);
        let viewport_width: i64 = fmul(viewport_height, aspect_ratio);
        let w = unit_vec(look_from - look_at);
        let u = unit_vec(vup.cross(w));
        let v = unit_vec(w.cross(u));
        let viewport_u = u * viewport_width;
        let viewport_v = v * sat_sub(0, viewport_height);
        let pixel_delta_u = viewport_u / width_whole;
        let pixel_delta_v = viewport_v / height_whole;
        let viewport_upper_left = camera_center - (w * focus_dist) - (viewport_u / (2 * UNIT)) - (
        viewport_v / (2 * UNIT));
        let pixel_zero_loc = viewport_upper_left + (pixel_delta_u + pixel_delta_v) * (UNIT / 2);
        let pixel_samples_scale: i64 = fdiv(UNIT, (samples_per_pixel as i64) * 100_000);
        let defocus_radius: i64 = fmul(focus_dist, defocus_half_tan);
        let defocus_disk_u = u * defocus_radius;
        let defocus_disk_v = v * defocus_radius;
        Camera {
            camera_center,
            aspect_ratio,
            width,
            height,
            pixel_delta_u,
            pixel_delta_v,
            pixel_zero_loc,
            samples_per_pixel,
            pixel_samples_scale,
            max_depth,
            vfov,
            look_from,
            look_at,
            vup,
            defocus_angle,
            focus_dist,
            defocus_disk_u,
            defocus_disk_v,
            background,
        }
    }

    /// The point of the lens from which a ray starts, for the point `p` of
    /// the unit disk.
    pub fn defocus_disk_sample(&self, p: Vec3) -> (r: Vec3)
        ensures
            r == self.lens_point(p),
    {
        self.camera_center + (self.defocus_disk_u * p.x) + (self.defocus_disk_v * p.y)
    }

    /// Follows the ray `r` into the scene, see [`Camera::trace`].
    pub fn ray_color(
        &self,
        r: &Ray,
        world: &World,
        root: usize,
        depth: u32,
        sampler: &mut Sampler,
    ) -> (color: Vec3)
        requires
            world.wf(),
            root < world.shapes@.len(),
            old(sampler).wf(),
        ensures
            ({
                let t = self.trace(
                    world,
                    root as int,
                    *r,
                    depth as nat,
                    old(sampler).samples@,
                    old(sampler).next,
                );
                color == t.color && final(sampler).next == t.next
            }),
            final(sampler).samples == old(sampler).samples,
            depth == 0 ==> color == (Vec3 { x: 0, y: 0, z: 0 }) && final(sampler).next == old(
                sampler,
            ).next,
        decreases depth,
    {
        if depth == 0 {
            return Vec3::new(0, 0, 0);
        }
        if !r.is_in_range() {
            return self.background;
        }
        let mut rec = HitRecord::default();
        if !world.hit(root, r, Interval::new(MIN_T, INFINITY), &mut rec, sampler) {
            return self.background;
        }
        if rec.material >= world.materials.len() {
            return Vec3::zero();
        }
        let material: &Material = &world.materials[rec.material];
        let color_from_emission = material.emitted(world, rec.u, rec.v, rec.point);
        let sample: Sample = sampler.take();
        match material.scatter(world, r, &rec, &sample) {
            None => color_from_emission,
            Some((attenuation, scattered)) => {
                let color_from_scattered = self.ray_color(&scattered, world, root, depth - 1, sampler);
                color_from_emission + dot(color_from_scattered, attenuation)
            },
        }
    }

    /// The ray for one sample of the pixel in column `i` of row `j`.
    pub fn get_ray(&self, i: u32, j: u32, sample: &Sample) -> (r: Ray)
        ensures
            r == self.ray_spec(i, j, *sample),
    {
        let offset = sample.square;
        let column: i64 = sat_add((i as i64) * 100_000, offset.x);
        let row: i64 = sat_add((j as i64) * 100_000, offset.y);
        let pixel_center = self.pixel_zero_loc + (self.pixel_delta_u * column) + (self.pixel_delta_v
            * row);
        let ray_origin = if self.defocus_angle <= 0 {
            self.camera_center
        } else {
            self.defocus_disk_sample(sample.disk)
        };
        let ray_direction = pixel_center - ray_origin;
        Ray::new(ray_origin, ray_direction, sample.uniform)
    }
}

impl Camera {
    /// The sum of the first `k` samples of the pixel in column `i` of row
    /// `j`: each sample takes one bundle of draws for its ray and follows
    /// that ray over at most `max_depth` hits.
    pub open spec fn gather(
        &self,
        world: &World,
        root: int,
        i: u32,
        j: u32,
        k: nat,
        tape: Seq<Sample>,
        next: usize,
    ) -> Traced
        decreases k,
    {
        if k == 0 {
            Traced { color: Vec3 { x: 0, y: 0, z: 0 }, next }
        } else {
            let before = self.gather(world, root, i, j, (k - 1) as nat, tape, next);
            let t = self.trace(
                world,
                root,
                self.ray_spec(i, j, draw_at(tape, before.next as int)),
                self.max_depth as nat,
                tape,
                advance(tape, before.next as int) as usize,
            );
            Traced { color: before.color.sum_spec(t.color), next: t.next }
        }
    }

    /// The colour of a pixel: the mean of its samples.
    #[verifier::opaque]
    pub open spec fn pixel_spec(
        &self,
        world: &World,
        root: int,
        i: u32,
        j: u32,
        tape: Seq<Sample>,
        next: usize,
    ) -> Traced {
        let sum = self.gather(world, root, i, j, self.samples_per_pixel as nat, tape, next);
        Traced { color: sum.color.scale_spec(self.pixel_samples_scale as int), next: sum.next }
    }

    /// A pixel with one sample is that sample: the light that comes back
    /// along the ray of the first bundle of draws, followed from the bundle
    /// after it.
    pub proof fn lemma_pixel_of_one_sample(
        &self,
        world: &World,
        root: int,
        i: u32,
        j: u32,
        tape: Seq<Sample>,
        next: usize,
    )
        requires
            self.samples_per_pixel == 1,
            self.pixel_samples_scale == UNIT,
        ensures
            self.pixel_spec(world, root, i, j, tape, next) == self.trace(
                world,
                root,
                self.ray_spec(i, j, draw_at(tape, next as int)),
                self.max_depth as nat,
                tape,
                advance(tape, next as int) as usize,
            ),
    {
        reveal(Camera::pixel_spec);
        reveal_with_fuel(Camera::gather, 3);
        assert forall|x: int| #[trigger] fmul_spec(x, UNIT as int) == saturate(x) by {
            vstd::arithmetic::div_mod::lemma_fundamental_div_mod_converse(
                x * UNIT,
                UNIT as int,
                x,
                0,
            );
        }
    }

    /// Pixel number `n` of a tile that is `across` pixels wide and starts in
    /// column `x_min` of row `y_min`, where the pixels are taken row by row
    /// and each goes on reading the tape where the one before it stopped.
    #[verifier::opaque]
    pub open spec fn tile_pixel(
        &self,
        world: &World,
        root: int,
        x_min: int,
        y_min: int,
        across: int,
        n: nat,
        tape: Seq<Sample>,
        next: usize,
    ) -> Traced
        decreases n,
    {
        self.pixel_spec(
            world,
            root,
            (x_min + n % (across as nat)) as u32,
            (y_min + n / (across as nat)) as u32,
            tape,
            if n == 0 {
                next
            } else {
                self.tile_pixel(world, root, x_min, y_min, across, (n - 1) as nat, tape, next).next
            },
        )
    }

    /// Pixel number `n` of a tile is the pixel in column `n % across` and
    /// row `n / across` of the tile, sampled from where the tape stands
    /// after the pixels before it.
    pub proof fn lemma_tile_pixel(
        &self,
        world: &World,
        root: int,
        x_min: int,
        y_min: int,
        across: int,
        n: nat,
        tape: Seq<Sample>,
        next: usize,
    )
        ensures
            self.tile_pixel(world, root, x_min, y_min, across, n, tape, next) == self.pixel_spec(
                world,
                root,
                (x_min + n % (across as nat)) as u32,
                (y_min + n / (across as nat)) as u32,
                tape,
                self.tape_after(world, root, x_min, y_min, across, n, tape, next),
            ),
    {
        reveal(Camera::tile_pixel);
    }

    /// Where the tape stands after the first `n` pixels of a tile.
    pub open spec fn tape_after(
        &self,
        world: &World,
        root: int,
        x_min: int,
        y_min: int,
        across: int,
        n: nat,
        tape: Seq<Sample>,
        next: usize,
    ) -> usize {
        if n == 0 {
            next
        } else {
            self.tile_pixel(world, root, x_min, y_min, across, (n - 1) as nat, tape, next).next
        }
    }

    /// Samples the pixel in column `i` of row `j`, see
    /// [`Camera::pixel_spec`].
    pub fn pixel_color(&self, i: u32, j: u32, world: &World, root: usize, sampler: &mut Sampler) -> (color:
        Vec3)
        requires
            world.wf(),
            root < world.shapes@.len(),
            old(sampler).wf(),
        ensures
            ({
                let p = self.pixel_spec(
                    world,
                    root as int,
                    i,
                    j,
                    old(sampler).samples@,
                    old(sampler).next,
                );
                color == p.color && final(sampler).next == p.next
            }),
            final(sampler).samples == old(sampler).samples,
    {
        let ghost tape = sampler.samples@;
        let ghost samples0 = sampler.samples;
        let ghost next0 = sampler.next;
        let mut pixel_color = Vec3::new(0, 0, 0);
        let mut k: u32 = 0;
        while k < self.samples_per_pixel
            invariant
                k <= self.samples_per_pixel,
                world.wf(),
                root < world.shapes@.len(),
                sampler.wf(),
                sampler.samples == samples0,
                tape == samples0@,
                ({
                    let g = self.gather(world, root as int, i, j, k as nat, tape, next0);
                    pixel_color == g.color && sampler.next == g.next
                }),
            decreases self.samples_per_pixel - k,
        {
            let sample: Sample = sampler.take();
            let r = self.get_ray(i, j, &sample);
            let c = self.ray_color(&r, world, root, self.max_depth, sampler);
            pixel_color = pixel_color + c;
            k = k + 1;
        }
        proof {
            reveal(Camera::pixel_spec);
        }
        pixel_color * self.pixel_samples_scale
    }

    /// Renders one tile into a buffer of its own: the pixels of the columns
    /// `x_min..x_max` of the rows `y_min..y_max`, as far as they lie in the
    /// image, row by row. A tile without pixels gives an empty buffer.
    pub fn render_sub(
        &self,
        world: &World,
        root: usize,
        x_min: u32,
        x_max: u32,
        y_min: u32,
        y_max: u32,
        sampler: &mut Sampler,
    ) -> (buff: Vec<Vec3>)
        requires
            world.wf(),
            root < world.shapes@.len(),
            old(sampler).wf(),
        ensures
            final(sampler).samples == old(sampler).samples,
            ({
                let right = if x_max < self.width {
                    x_max
                } else {
                    self.width
                };
                let bottom = if y_max < self.height {
                    y_max
                } else {
                    self.height
                };
                if right > x_min && bottom > y_min {
                    let across = right - x_min;
                    &&& buff@.len() == across * (bottom - y_min)
                    &&& forall|n: int|
                        0 <= n < buff@.len() ==> #[trigger] buff@[n] == self.tile_pixel(
                            world,
                            root as int,
                            x_min as int,
                            y_min as int,
                            across,
                            n as nat,
                            old(sampler).samples@,
                            old(sampler).next,
                        ).color
                    &&& final(sampler).next == self.tape_after(
                        world,
                        root as int,
                        x_min as int,
                        y_min as int,
                        across,
                        buff@.len(),
                        old(sampler).samples@,
                        old(sampler).next,
                    )
                } else {
                    buff@.len() == 0 && final(sampler).next == old(sampler).next
                }
            }),
    {
        let x_max: u32 = if x_max < self.width {
            x_max
        } else {
            self.width
        };
        let y_max: u32 = if y_max < self.height {
            y_max
        } else {
            self.height
        };
        let mut buff: Vec<Vec3> = Vec::new();
        if x_max > x_min && y_max > y_min {
            let ghost tape = sampler.samples@;
            let ghost samples0 = sampler.samples;
            let ghost next0 = sampler.next;
            let ghost across = (x_max - x_min) as int;
            let mut j: u32 = y_min;
            while j < y_max
                invariant
                    y_min <= j <= y_max,
                    x_min < x_max,
                    across == x_max - x_min,
                    world.wf(),
                    root < world.shapes@.len(),
                    sampler.wf(),
                    sampler.samples == samples0,
                    tape == samples0@,
                    buff@.len() == across * (j - y_min),
                    forall|n: int|
                        0 <= n < buff@.len() ==> #[trigger] buff@[n] == self.tile_pixel(
                            world,
                            root as int,
                            x_min as int,
                            y_min as int,
                            across,
                            n as nat,
                            tape,
                            next0,
                        ).color,
                    sampler.next == self.tape_after(
                        world,
                        root as int,
                        x_min as int,
                        y_min as int,
                        across,
                        buff@.len(),
                        tape,
                        next0,
                    ),
                decreases y_max - j,
            {
                let mut i: u32 = x_min;
                proof {
                    assert(across * (j - y_min) + across == across * (j + 1 - y_min))
                        by (nonlinear_arith);
                }
                while i < x_max
                    invariant
                        y_min <= j < y_max,
                        x_min <= i <= x_max,
                        across == x_max - x_min,
                        world.wf(),
                        root < world.shapes@.len(),
                        sampler.wf(),
                        sampler.samples == samples0,
                        tape == samples0@,
                        buff@.len() == across * (j - y_min) + (i - x_min),
                        forall|n: int|
                            0 <= n < buff@.len() ==> #[trigger] buff@[n] == self.tile_pixel(
                                world,
                                root as int,
                                x_min as int,
                                y_min as int,
                                across,
                                n as nat,
                                tape,
                                next0,
                            ).color,
                        sampler.next == self.tape_after(
                            world,
                            root as int,
                            x_min as int,
                            y_min as int,
                            across,
                            buff@.len(),
                            tape,
                            next0,
                        ),
                    decreases x_max - i,
                {
                    let ghost n = buff@.len();
                    let ghost before = buff@;
                    let pixel_color = self.pixel_color(i, j, world, root, sampler);
                    proof {
                        lemma_row_major(across, (j - y_min) as int, (i - x_min) as int);
                        self.lemma_tile_pixel(
                            world,
                            root as int,
                            x_min as int,
                            y_min as int,
                            across,
                            n,
                            tape,
                            next0,
                        );
                        let here = self.tile_pixel(
                            world,
                            root as int,
                            x_min as int,
                            y_min as int,
                            across,
                            n,
                            tape,
                            next0,
                        );
                        assert(n % (across as nat) == i - x_min);
                        assert(n / (across as nat) == j - y_min);
                        assert(pixel_color == here.color);
                        assert(sampler.next == here.next);
                    }
                    buff.push(pixel_color);
                    proof {
                        assert forall|m: int| 0 <= m < buff@.len() implies #[trigger] buff@[m]
                            == self.tile_pixel(
                            world,
                            root as int,
                            x_min as int,
                            y_min as int,
                            across,
                            m as nat,
                            tape,
                            next0,
                        ).color by {
                            if m < n {
                                assert(buff@[m] == before[m]);
                            }
                        }
                    }
                    i = i + 1;
                }
                j = j + 1;
            }
        }
        buff
    }
}

/// In a grid that is `across` wide, the cell in column `column` of row
/// `row` is the cell number `across · row + column`, counted row by row.
pub proof fn lemma_row_major(across: int, row: int, column: int)
    requires
        0 <= column < across,
        0 <= row,
    ensures
        (across * row + column) % across == column,
        (across * row + column) / across == row,
{
    assert(row * across == across * row) by (nonlinear_arith);
    vstd::arithmetic::div_mod::lemma_fundamental_div_mod_converse(
        across * row + column,
        across,
        row,
        column,
    );
}

/// Tiles in an image.
pub const TILE_COUNT: u32 = 400;

/// What the thread that hands out tiles does next.
#[derive(Clone, Copy, Debug, PartialEq, Eq, Structural)]
pub enum Step {
    /// Start rendering the tile in this column and this row.
    Launch(u32, u32),
    /// Wait until a tile has been finished.
    Wait,
    /// Every tile has been handed out and finished.
    Finished,
}

/// The book that the thread that hands out tiles keeps: how many tiles it
/// has handed out and how many of them are still being rendered.
#[derive(Clone, Copy, Debug, PartialEq, Eq, Structural)]
pub struct Scheduler {
    pub launched: u32,
    pub outstanding: usize,
}

impl Scheduler {
    /// Never more than `THREAD_LIMIT` tiles are being rendered at once, and
    /// none that was not handed out.
    pub open spec fn wf(&self) -> bool {
        &&& self.launched <= TILE_COUNT
        &&& self.outstanding <= THREAD_LIMIT
        &&& self.outstanding <= self.launched
    }

    /// What [`Scheduler::next`] answers in the state `self`: the tiles are
    /// handed out row by row, one at a time, as long as fewer than
    /// `THREAD_LIMIT` are being rendered.
    pub open spec fn next_spec(&self) -> Step {
        if self.launched < TILE_COUNT {
            if self.outstanding < THREAD_LIMIT {
                Step::Launch(self.launched % WIDTH_PARTITION, self.launched / WIDTH_PARTITION)
            } else {
                Step::Wait
            }
        } else if self.outstanding > 0 {
            Step::Wait
        } else {
            Step::Finished
        }
    }

    pub fn new() -> (s: Scheduler)
        ensures
            s.wf(),
            s.launched == 0,
            s.outstanding == 0,
    {
        Scheduler { launched: 0, outstanding: 0 }
    }

    /// Says what to do next. Handing out a tile counts it as handed out and
    /// as being rendered; nothing else changes the book.
    pub fn next(&mut self) -> (step: Step)
        requires
            old(self).wf(),
        ensures
            final(self).wf(),
            step == old(self).next_spec(),
            match step {
                Step::Launch(i, j) => {
                    &&& i < WIDTH_PARTITION
                    &&& j < HEIGHT_PARTITION
                    &&& final(self).launched == old(self).launched + 1
                    &&& final(self).outstanding == old(self).outstanding + 1
                },
                _ => *final(self) == *old(self),
            },
    {
        if self.launched < TILE_COUNT {
            if self.outstanding < THREAD_LIMIT {
                let i: u32 = self.launched % WIDTH_PARTITION;
                let j: u32 = self.launched / WIDTH_PARTITION;
                self.launched = self.launched + 1;
                self.outstanding = self.outstanding + 1;
                Step::Launch(i, j)
            } else {
                Step::Wait
            }
        } else if self.outstanding > 0 {
            Step::Wait
        } else {
            Step::Finished
        }
    }

    /// Takes note that a tile has been finished.
    pub fn complete(&mut self)
        requires
            old(self).wf(),
            old(self).outstanding > 0,
        ensures
            final(self).wf(),
            final(self).launched == old(self).launched,
            final(self).outstanding == old(self).outstanding - 1,
    {
        self.outstanding = self.outstanding - 1;
    }
}

/// The tiles are handed out each once: tile number `n`, counted row by row,
/// is the one that is handed out when `n` tiles have been handed out
/// before, and two different counts give two different tiles.
pub proof fn lemma_launch_order(n: u32, m: u32)
    requires
        n < TILE_COUNT,
        m < TILE_COUNT,
    ensures
        n % WIDTH_PARTITION < WIDTH_PARTITION,
        n / WIDTH_PARTITION < HEIGHT_PARTITION,
        (n % WIDTH_PARTITION == m % WIDTH_PARTITION && n / WIDTH_PARTITION == m / WIDTH_PARTITION)
            ==> n == m,
{
}

} // verus!
