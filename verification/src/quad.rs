//! Planar quadrilaterals: a corner and two edges.

use vstd::prelude::*;
use vstd::arithmetic::div_mod::lemma_fundamental_div_mod_converse;
use crate::aabb::Aabb;
use crate::bvh::fold_box;
use crate::hitable::{
    HitRecord, Hittable, Hittable_list, leaf_outcome, Outcome, Sample, Sampler, Shape, World,
};
use crate::interval::Interval;
use crate::ray::Ray;
use crate::scalar::{
    COORD_MAX, floor_div, floor_div_spec, INFINITY, lemma_product_bounded, max_spec, min_spec,
    NEG_INFINITY, saturate, saturating, SPAN_MAX, UNIT,
};
use crate::utils::{fmax, fmin, unit_vec, unit_vec_spec};
use crate::vec3::{lemma_cross_exact, Vec3};

verus! {

/// A ray counts as parallel to a plane where the plane's unit normal times
/// the direction is under one part in `PARALLEL_SCALE` of a grid step.
pub const PARALLEL_SCALE: i128 = 1000;

/// The parallelogram with the corner `q` and the edges `u` and `v`.
///
/// `n` is `u × v`, exact; `nn` its squared length; `offset` is `n · q`, so
/// that the plane holds the points `p` with `n · p = offset`; `normal` is
/// `n` brought to the length of one unit.
#[derive(Clone, Copy, Debug, PartialEq, Eq, Structural)]
pub struct Quad {
    pub q: Vec3,
    pub u: Vec3,
    pub v: Vec3,
    pub material: usize,
    pub bbox: Aabb,
    pub normal: Vec3,
    pub n: Vec3,
    pub nn: i128,
    pub offset: i128,
}

/// A planar coordinate `num / den` on the grid, rounded down; anything
/// below 0 is −1 step, anything from 1 on is one unit.
pub open spec fn planar_spec(num: int, den: int) -> int {
    if num < 0 {
        -1
    } else if num >= den {
        UNIT as int
    } else {
        (num * UNIT) / den
    }
}

/// Both planar coordinates lie in the half-open unit range `[0, 1)`.
pub open spec fn interior(a: int, b: int) -> bool {
    0 <= a < UNIT && 0 <= b < UNIT
}

pub open spec fn quad_box(q: Vec3, u: Vec3, v: Vec3) -> Aabb {
    Aabb::union_spec(
        Aabb::from_points_spec(q, q.sum_spec(u).sum_spec(v)),
        Aabb::from_points_spec(q.sum_spec(u), q.sum_spec(v)),
    ).padded_spec()
}

/// All four corners of the quad are points of the scene.
pub open spec fn in_scene(q: Vec3, u: Vec3, v: Vec3) -> bool {
    &&& q.within(COORD_MAX as int)
    &&& q.sum_spec(u).within(COORD_MAX as int)
    &&& q.sum_spec(v).within(COORD_MAX as int)
    &&& q.sum_spec(u).sum_spec(v).within(COORD_MAX as int)
    &&& u.is_finite()
    &&& v.is_finite()
}

impl Quad {
    pub open spec fn wf(&self) -> bool {
        &&& in_scene(self.q, self.u, self.v)
        &&& self.u.within(SPAN_MAX as int)
        &&& self.v.within(SPAN_MAX as int)
        &&& self.n == self.u.cross_spec(self.v)
        &&& self.n.within(2 * SPAN_MAX * SPAN_MAX)
        &&& self.nn == self.n.dot_spec(self.n)
        &&& self.offset == self.n.dot_spec(self.q)
        &&& self.normal == unit_vec_spec(self.n)
        &&& self.normal.within(UNIT as int)
        &&& self.bbox == quad_box(self.q, self.u, self.v)
    }

    /// The first planar coordinate of the point at `p` from the corner, as
    /// a numerator over `nn`.
    pub open spec fn alpha_num(&self, p: Vec3) -> int {
        self.n.dot_spec(p.cross_spec(self.v))
    }

    /// The second planar coordinate of the point at `p` from the corner, as
    /// a numerator over `nn`.
    pub open spec fn beta_num(&self, p: Vec3) -> int {
        self.n.dot_spec(self.u.cross_spec(p))
    }

    /// The ray runs along the plane, or so nearly that no crossing is
    /// computed.
    pub open spec fn parallel(&self, r: Ray) -> bool {
        let d = self.n.dot_spec(r.b_direction) * PARALLEL_SCALE;
        d * d < self.nn
    }

    /// The parameter at which the ray crosses the plane, rounded down.
    pub open spec fn crossing(&self, r: Ray) -> int {
        saturate(
            floor_div_spec(
                (self.offset - self.n.dot_spec(r.a_origin)) * UNIT,
                self.n.dot_spec(r.b_direction),
            ),
        )
    }

    /// The hit, if there is one: the crossing of the ray with the plane,
    /// where it lies in the range and inside the quad.
    ///
    /// A crossing whose point lies further than a span from the corner `q`
    /// on some axis counts as a miss: its planar coordinates could not be
    /// computed without overflow. Every point of a well-formed quad lies
    /// within a span of `q` on every axis, and the point that is computed
    /// is off the true crossing by less than `|D| / UNIT + 1` steps on an
    /// axis, for a ray with the direction `D`, because the parameter is
    /// rounded down. So such a miss can stand for a true hit only on a quad
    /// that reaches over all but that many steps of a span on an axis, which
    /// is the width of the whole scene, and only that close to its far end.
    pub open spec fn found(&self, r: Ray, ray_t: Interval) -> Option<HitRecord> {
        let t = self.crossing(r);
        let point = r.at_spec(t);
        let p = point.difference_spec(self.q);
        let a = planar_spec(self.alpha_num(p), self.nn as int);
        let b = planar_spec(self.beta_num(p), self.nn as int);
        if self.nn <= 0 || self.parallel(r) {
            None
        } else if !(ray_t.tmin <= t <= ray_t.tmax) {
            None
        } else if !p.within(SPAN_MAX as int) || !interior(a, b) {
            None
        } else {
            Some(
                (HitRecord {
                    t: t as i64,
                    point,
                    normal: self.normal,
                    material: self.material,
                    front_face: true,
                    u: a as i64,
                    v: b as i64,
                }).with_face_normal(r, self.normal),
            )
        }
    }

    /// Whether all four corners of the quad with the corner `q` and the
    /// edges `u` and `v` are points of the scene, see [`in_scene`].
    pub fn fits(q: Vec3, u: Vec3, v: Vec3) -> (r: bool)
        ensures
            r == in_scene(q, u, v),
    {
        let finite = u.x != INFINITY && u.x != NEG_INFINITY && u.y != INFINITY && u.y
            != NEG_INFINITY && u.z != INFINITY && u.z != NEG_INFINITY && v.x != INFINITY && v.x
            != NEG_INFINITY && v.y != INFINITY && v.y != NEG_INFINITY && v.z != INFINITY && v.z
            != NEG_INFINITY;
        finite && q.is_within(COORD_MAX) && (q + u).is_within(COORD_MAX) && (q + v).is_within(
            COORD_MAX,
        ) && (q + u + v).is_within(COORD_MAX)
    }

    /// Whether the quad is well formed, see [`Quad::wf`].
    pub fn is_wf(&self) -> (r: bool)
        ensures
            r == self.wf(),
    {
        if !Self::fits(self.q, self.u, self.v) {
            return false;
        }
        let fresh = Quad::new(self.q, self.u, self.v, self.material);
        self.n == fresh.n && self.nn == fresh.nn && self.offset == fresh.offset && self.normal
            == fresh.normal && self.bbox == fresh.bbox
    }

    pub fn new(q: Vec3, u: Vec3, v: Vec3, material: usize) -> (s: Self)
        requires
            in_scene(q, u, v),
        ensures
            s.wf(),
            s.q == q,
            s.u == u,
            s.v == v,
            s.material == material,
            s.bbox.is_padded() && s.bbox.is_solid(),
    {
        let bbox_diagonal1 = Aabb::new_from_point(q, q + u + v);
        let bbox_diagonal2 = Aabb::new_from_point(q + u, q + v);
        let bbox = Aabb::new_from_bbox(bbox_diagonal1, bbox_diagonal2);
        let n = u.cross(v);
        let normal = unit_vec(n);
        let offset: i128 = n * q;
        let nn: i128 = n * n;
        Self { q, u, v, material, bbox, normal, n, nn, offset }
    }

    /// Whether the planar coordinates `a` and `b` lie inside the quad, that
    /// is in `[0, 1)` both; if so they become the record's `u` and `v`.
    pub fn is_interier(&self, a: i64, b: i64, rec: &mut HitRecord) -> (r: bool)
        ensures
            r == interior(a as int, b as int),
            r ==> *final(rec) == (HitRecord { u: a, v: b, ..*old(rec) }),
            !r ==> *final(rec) == *old(rec),
    {
        if !(0 <= a && a < UNIT) || !(0 <= b && b < UNIT) {
            false
        } else {
            rec.u = a;
            rec.v = b;
            true
        }
    }

    /// Crosses the ray with the plane and tests the crossing against the
    /// quad. A miss leaves the record as it was.
    pub fn hit(&self, ray: &Ray, ray_t: Interval, rec: &mut HitRecord) -> (b: bool)
        requires
            self.wf(),
            ray.in_range(),
        ensures
            b == self.found(*ray, ray_t).is_some(),
            b ==> *final(rec) == self.found(*ray, ray_t).unwrap(),
            !b ==> *final(rec) == *old(rec),
            b ==> ray_t.tmin <= final(rec).t <= ray_t.tmax,
    {
        if self.nn <= 0 {
            return false;
        }
        let denom: i128 = self.n * ray.direction();
        proof {
            let m = 2 * SPAN_MAX * SPAN_MAX;
            lemma_product_bounded(self.n.x as int, ray.b_direction.x as int, m, SPAN_MAX as int);
            lemma_product_bounded(self.n.y as int, ray.b_direction.y as int, m, SPAN_MAX as int);
            lemma_product_bounded(self.n.z as int, ray.b_direction.z as int, m, SPAN_MAX as int);
            lemma_product_bounded(self.n.x as int, ray.a_origin.x as int, m, SPAN_MAX as int);
            lemma_product_bounded(self.n.y as int, ray.a_origin.y as int, m, SPAN_MAX as int);
            lemma_product_bounded(self.n.z as int, ray.a_origin.z as int, m, SPAN_MAX as int);
            lemma_product_bounded(self.n.x as int, self.q.x as int, m, SPAN_MAX as int);
            lemma_product_bounded(self.n.y as int, self.q.y as int, m, SPAN_MAX as int);
            lemma_product_bounded(self.n.z as int, self.q.z as int, m, SPAN_MAX as int);
            lemma_product_bounded(self.n.x as int, self.n.x as int, m, m);
            lemma_product_bounded(self.n.y as int, self.n.y as int, m, m);
            lemma_product_bounded(self.n.z as int, self.n.z as int, m, m);
            assert(m * SPAN_MAX == 0x800_0000_0000_0000_0000_0000int && m * m
                == 0x400_0000_0000_0000_0000_0000_0000_0000int) by (nonlinear_arith)
                requires
                    m == 0x2000_0000_0000_0000,
                    SPAN_MAX == 0x4000_0000,
            ;
        }
        let scaled: i128 = if denom < 0 {
            -denom * PARALLEL_SCALE
        } else {
            denom * PARALLEL_SCALE
        };
        let limit: i128 = 0x4000_0000_0000_0000;
        if scaled < limit {
            proof {
                lemma_product_bounded(scaled as int, scaled as int, limit as int, limit as int);
                assert(limit * limit == 0x1000_0000_0000_0000_0000_0000_0000_0000int)
                    by (nonlinear_arith)
                    requires
                        limit == 0x4000_0000_0000_0000,
                ;
                let d = self.n.dot_spec(ray.b_direction) * PARALLEL_SCALE;
                assert(d * d == scaled * scaled) by (nonlinear_arith)
                    requires
                        d == scaled || d == -scaled,
                ;
            }
            if scaled * scaled < self.nn {
                return false;
            }
        } else {
            proof {
                let d = self.n.dot_spec(ray.b_direction) * PARALLEL_SCALE;
                assert(d * d >= limit * limit) by (nonlinear_arith)
                    requires
                        d >= limit || d <= -limit,
                        limit >= 0,
                ;
                assert(limit * limit == 0x1000_0000_0000_0000_0000_0000_0000_0000int)
                    by (nonlinear_arith)
                    requires
                        limit == 0x4000_0000_0000_0000,
                ;
            }
        }
        assert(!self.parallel(*ray));
        assert(denom != 0) by {
            if denom == 0 {
                let d = self.n.dot_spec(ray.b_direction) * PARALLEL_SCALE;
                assert(d * d == 0) by (nonlinear_arith)
                    requires
                        d == 0,
                ;
                assert(self.parallel(*ray));
            }
        }
        let from_origin: i128 = self.n * ray.origin();
        let t: i64 = saturating(floor_div((self.offset - from_origin) * 100_000, denom));
        if !ray_t.contains(t) {
            return false;
        }
        let intersection: Vec3 = ray.at(t);
        let planar_hitpt_vector: Vec3 = intersection - self.q;
        let p: Vec3 = planar_hitpt_vector;
        if !(-SPAN_MAX <= p.x && p.x <= SPAN_MAX && -SPAN_MAX <= p.y && p.y <= SPAN_MAX && -SPAN_MAX
            <= p.z && p.z <= SPAN_MAX) {
            return false;
        }
        let alpha: i64 = planar(self.n * p.cross(self.v), self.nn);
        let beta: i64 = planar(self.n * self.u.cross(p), self.nn);
        if !self.is_interier(alpha, beta, rec) {
            return false;
        }
        *rec = HitRecord::new(t, intersection, self.normal, self.material, true, rec.u, rec.v);
        rec.set_face_normal(*ray, self.normal);
        true
    }

    pub fn bounding_box(&self) -> (b: Aabb)
        ensures
            b == self.bbox,
    {
        self.bbox
    }
}

impl Hittable for Quad {
    open spec fn wf_at(&self, me: int) -> bool {
        self.wf()
    }

    open spec fn as_shape(self) -> Shape {
        Shape::Quad(self)
    }

    open spec fn hit_spec(
        &self,
        shapes: Seq<Shape>,
        me: int,
        r: Ray,
        ray_t: Interval,
        rec: HitRecord,
        tape: Seq<Sample>,
        next: usize,
    ) -> Outcome {
        leaf_outcome(self.found(r, ray_t), rec, next)
    }

    open spec fn box_spec(&self, shapes: Seq<Shape>, me: int) -> Aabb {
        self.bbox
    }

    fn hit(
        &self,
        world: &World,
        me: usize,
        r: &Ray,
        ray_t: Interval,
        rec: &mut HitRecord,
        sampler: &mut Sampler,
    ) -> (b: bool) {
        self.hit(r, ray_t, rec)
    }

    fn bounding_box(&self, world: &World, me: usize) -> (b: Aabb) {
        self.bbox
    }

    fn instancing(self, world: &mut World) -> (h: usize) {
        world.add(Shape::Quad(self))
    }
}

/// The corner and the two edges of side `k` of the box between the
/// opposite corners `a` and `b`: front, right, back, left, top, bottom.
#[verifier::opaque]
pub open spec fn box_side(a: Vec3, b: Vec3, k: int) -> (Vec3, Vec3, Vec3) {
    let lo = Vec3 {
        x: min_spec(a.x as int, b.x as int) as i64,
        y: min_spec(a.y as int, b.y as int) as i64,
        z: min_spec(a.z as int, b.z as int) as i64,
    };
    let hi = Vec3 {
        x: max_spec(a.x as int, b.x as int) as i64,
        y: max_spec(a.y as int, b.y as int) as i64,
        z: max_spec(a.z as int, b.z as int) as i64,
    };
    let dx = Vec3 { x: (hi.x - lo.x) as i64, y: 0, z: 0 };
    let dy = Vec3 { x: 0, y: (hi.y - lo.y) as i64, z: 0 };
    let dz = Vec3 { x: 0, y: 0, z: (hi.z - lo.z) as i64 };
    let back_x = Vec3 { x: (lo.x - hi.x) as i64, y: 0, z: 0 };
    let back_z = Vec3 { x: 0, y: 0, z: (lo.z - hi.z) as i64 };
    if k == 0 {
        (Vec3 { x: lo.x, y: lo.y, z: hi.z }, dx, dy)
    } else if k == 1 {
        (Vec3 { x: hi.x, y: lo.y, z: hi.z }, back_z, dy)
    } else if k == 2 {
        (Vec3 { x: hi.x, y: lo.y, z: lo.z }, back_x, dy)
    } else if k == 3 {
        (Vec3 { x: lo.x, y: lo.y, z: lo.z }, dz, dy)
    } else if k == 4 {
        (Vec3 { x: lo.x, y: hi.y, z: hi.z }, dx, back_z)
    } else {
        (Vec3 { x: lo.x, y: lo.y, z: lo.z }, dx, dz)
    }
}

/// The shape is the quad with the corner `q`, the edges `u` and `v` and
/// the material `material`.
#[verifier::opaque]
pub open spec fn is_side(shape: Shape, q: Vec3, u: Vec3, v: Vec3, material: usize) -> bool {
    match shape {
        Shape::Quad(s) => s.wf() && s.material == material && s.q == q && s.u == u && s.v == v,
        _ => false,
    }
}

/// Computes [`box_side`]. All corners of a side are points of the scene.
pub fn side_of(a: Vec3, b: Vec3, k: u8) -> (side: (Vec3, Vec3, Vec3))
    requires
        a.within(COORD_MAX as int),
        b.within(COORD_MAX as int),
    ensures
        side == box_side(a, b, k as int),
        in_scene(side.0, side.1, side.2),
{
    reveal(box_side);
    let lo = Vec3::new(fmin(a.x, b.x), fmin(a.y, b.y), fmin(a.z, b.z));
    let hi = Vec3::new(fmax(a.x, b.x), fmax(a.y, b.y), fmax(a.z, b.z));
    let dx = Vec3::new(hi.x - lo.x, 0, 0);
    let dy = Vec3::new(0, hi.y - lo.y, 0);
    let dz = Vec3::new(0, 0, hi.z - lo.z);
    if k == 0 {
        (Vec3::new(lo.x, lo.y, hi.z), dx, dy)
    } else if k == 1 {
        (Vec3::new(hi.x, lo.y, hi.z), Vec3::new(0, 0, lo.z - hi.z), dy)
    } else if k == 2 {
        (Vec3::new(hi.x, lo.y, lo.z), Vec3::new(lo.x - hi.x, 0, 0), dy)
    } else if k == 3 {
        (Vec3::new(lo.x, lo.y, lo.z), dz, dy)
    } else if k == 4 {
        (Vec3::new(lo.x, hi.y, hi.z), dx, Vec3::new(0, 0, lo.z - hi.z))
    } else {
        (Vec3::new(lo.x, lo.y, lo.z), dx, dz)
    }
}

/// The box between the opposite corners `a` and `b`: six quads of one
/// material, which are added to the arena one after the other, as a list.
pub fn create_box(a: Vec3, b: Vec3, material: usize, world: &mut World) -> (sides: Hittable_list)
    requires
        old(world).wf(),
        a.within(COORD_MAX as int),
        b.within(COORD_MAX as int),
    ensures
        final(world).wf(),
        final(world).materials == old(world).materials,
        final(world).textures == old(world).textures,
        final(world).shapes@.len() == old(world).shapes@.len() + 6,
        crate::bvh::is_prefix(old(world).shapes@, final(world).shapes@),
        sides.objects@.len() == 6,
        sides.wf(final(world).shapes@),
        forall|k: int|
            0 <= k < 6 ==> {
                &&& sides.objects@[k] == old(world).shapes@.len() + k
                &&& is_side(
                    #[trigger] final(world).shapes@[old(world).shapes@.len() + k],
                    box_side(a, b, k).0,
                    box_side(a, b, k).1,
                    box_side(a, b, k).2,
                    material,
                )
            },
{
    let mut sides = Hittable_list::default();
    let ghost s0 = world.shapes@;
    let ghost m0 = world.materials;
    let ghost t0 = world.textures;
    let mut n: u8 = 0;
    while n < 6
        invariant
            n <= 6,
            world.wf(),
            a.within(COORD_MAX as int),
            b.within(COORD_MAX as int),
            world.materials == m0,
            world.textures == t0,
            world.shapes@.len() == s0.len() + n,
            crate::bvh::is_prefix(s0, world.shapes@),
            sides.objects@.len() == n,
            sides.wf(world.shapes@),
            forall|k: int|
                0 <= k < n ==> {
                    &&& (#[trigger] sides.objects@[k]) == s0.len() + k
                    &&& is_side(
                        world.shapes@[sides.objects@[k] as int],
                        box_side(a, b, k).0,
                        box_side(a, b, k).1,
                        box_side(a, b, k).2,
                        material,
                    )
                },
        decreases 6 - n,
    {
        let side = side_of(a, b, n);
        let ghost before = world.shapes@;
        let ghost listed = sides.objects@;
        let ghost count: usize = world.shapes.len();
        push_side(&mut sides, side.0, side.1, side.2, material, world);
        proof {
            assert forall|k: int| 0 <= k < n + 1 implies {
                &&& (#[trigger] sides.objects@[k]) == s0.len() + k
                &&& is_side(
                    world.shapes@[sides.objects@[k] as int],
                    box_side(a, b, k).0,
                    box_side(a, b, k).1,
                    box_side(a, b, k).2,
                    material,
                )
            } by {
                if k < n {
                    assert(sides.objects@[k] == listed[k]);
                    assert(world.shapes@[listed[k] as int] == before[listed[k] as int]);
                } else {
                    assert(count == before.len());
                    assert(sides.objects@[k] == count);
                }
            }
        }
        n = n + 1;
    }
    proof {
        assert forall|k: int| 0 <= k < 6 implies {
            &&& sides.objects@[k] == s0.len() + k
            &&& is_side(
                #[trigger] world.shapes@[s0.len() + k],
                box_side(a, b, k).0,
                box_side(a, b, k).1,
                box_side(a, b, k).2,
                material,
            )
        } by {
            assert(sides.objects@[k] == s0.len() + k);
        }
    }
    sides
}

/// Adds the quad with the corner `q` and the edges `u` and `v` to the arena
/// and appends it to the list.
fn push_side(
    sides: &mut Hittable_list,
    q: Vec3,
    u: Vec3,
    v: Vec3,
    material: usize,
    world: &mut World,
)
    requires
        old(world).wf(),
        in_scene(q, u, v),
        old(sides).wf(old(world).shapes@),
    ensures
        final(world).wf(),
        final(world).materials == old(world).materials,
        final(world).textures == old(world).textures,
        final(world).shapes@.len() == old(world).shapes@.len() + 1,
        crate::bvh::is_prefix(old(world).shapes@, final(world).shapes@),
        is_side(final(world).shapes@[old(world).shapes@.len() as int], q, u, v, material),
        final(sides).objects@ == old(sides).objects@.push(old(world).shapes@.len() as usize),
        final(sides).wf(final(world).shapes@),
{
    let h: usize = Quad::new(q, u, v, material).instancing(world);
    proof {
        reveal(is_side);
        assert(crate::bvh::is_prefix(old(world).shapes@, world.shapes@));
        lemma_fold_prefix(
            old(world).shapes@,
            world.shapes@,
            sides.objects@,
            sides.objects@.len() as int,
        );
    }
    sides.add(h, world);
}

/// The box built up over handles that stood in the arena before it grew
/// has not changed.
pub proof fn lemma_fold_prefix(
    shorter: Seq<Shape>,
    longer: Seq<Shape>,
    handles: Seq<usize>,
    k: int,
)
    requires
        crate::bvh::is_prefix(shorter, longer),
        0 <= k <= handles.len(),
        forall|i: int| 0 <= i < k ==> handles[i] < shorter.len(),
    ensures
        fold_box(shorter, handles, 0, k) == fold_box(longer, handles, 0, k),
    decreases k,
{
    if k > 0 {
        lemma_fold_prefix(shorter, longer, handles, k - 1);
        crate::bvh::lemma_box_of_prefix(shorter, longer, handles[k - 1] as int);
    }
}

/// The corner of a quad has the planar coordinates (0, 0) and lies inside
/// it. The opposite corner, `q + u + v`, has the coordinates (1, 1) and lies
/// outside: the quad is half-open.
pub proof fn lemma_corner_coordinates(s: Quad)
    requires
        s.wf(),
        s.nn > 0,
    ensures
        ({
            let p = s.q.difference_spec(s.q);
            let a = planar_spec(s.alpha_num(p), s.nn as int);
            let b = planar_spec(s.beta_num(p), s.nn as int);
            a == 0 && b == 0 && interior(a, b)
        }),
        ({
            let p = s.q.sum_spec(s.u).sum_spec(s.v).difference_spec(s.q);
            let a = planar_spec(s.alpha_num(p), s.nn as int);
            let b = planar_spec(s.beta_num(p), s.nn as int);
            a == UNIT && b == UNIT && !interior(a, b)
        }),
{
    let zero = s.q.difference_spec(s.q);
    assert(zero == (Vec3 { x: 0, y: 0, z: 0 }));
    lemma_cross_exact(zero, s.v);
    lemma_cross_exact(s.u, zero);
    lemma_cross_exact(s.u, s.v);
    assert(zero.cross_spec(s.v) == zero && s.u.cross_spec(zero) == zero) by {
        assert(0 * s.v.x == 0 && 0 * s.v.y == 0 && 0 * s.v.z == 0 && s.u.x * 0 == 0 && s.u.y * 0
            == 0 && s.u.z * 0 == 0) by (nonlinear_arith);
    }
    assert(s.n.dot_spec(zero) == 0) by {
        assert(s.n.x * 0 == 0 && s.n.y * 0 == 0 && s.n.z * 0 == 0) by (nonlinear_arith);
    }
    assert((0 * UNIT) / (s.nn as int) == 0) by (nonlinear_arith)
        requires
            s.nn > 0,
    ;
    let far = s.q.sum_spec(s.u).sum_spec(s.v).difference_spec(s.q);
    assert(far.x == s.u.x + s.v.x && far.y == s.u.y + s.v.y && far.z == s.u.z + s.v.z);
    lemma_cross_exact(far, s.v);
    lemma_cross_exact(s.u, far);
    let (ux, uy, uz) = (s.u.x as int, s.u.y as int, s.u.z as int);
    let (vx, vy, vz) = (s.v.x as int, s.v.y as int, s.v.z as int);
    assert((uy + vy) * vz - (uz + vz) * vy == uy * vz - uz * vy && (uz + vz) * vx - (ux + vx) * vz
        == uz * vx - ux * vz && (ux + vx) * vy - (uy + vy) * vx == ux * vy - uy * vx)
        by (nonlinear_arith);
    assert(uy * (uz + vz) - uz * (uy + vy) == uy * vz - uz * vy && uz * (ux + vx) - ux * (uz + vz)
        == uz * vx - ux * vz && ux * (uy + vy) - uy * (ux + vx) == ux * vy - uy * vx)
        by (nonlinear_arith);
    assert(far.cross_spec(s.v) == s.n);
    assert(s.u.cross_spec(far) == s.n);
}

/// Computes [`planar_spec`].
pub fn planar(num: i128, den: i128) -> (r: i64)
    requires
        0 < den <= 0x1000_0000_0000_0000_0000_0000_0000_0000,
    ensures
        r == planar_spec(num as int, den as int),
        -1 <= r <= UNIT,
{
    if num < 0 {
        -1
    } else if num >= den {
        UNIT
    } else {
        let d: u128 = den as u128;
        let mut rem: u128 = num as u128;
        let mut quot: u128 = 0;
        let mut pow: u128 = 1;
        let mut i: u8 = 0;
        while i < 5
            invariant
                i <= 5,
                d == den,
                0 < d <= 0x1000_0000_0000_0000_0000_0000_0000_0000,
                0 <= rem < d,
                0 <= quot < pow,
                quot * d + rem == num * pow,
                i == 0 ==> pow == 1,
                i == 1 ==> pow == 10,
                i == 2 ==> pow == 100,
                i == 3 ==> pow == 1000,
                i == 4 ==> pow == 10_000,
                i == 5 ==> pow == 100_000,
            decreases 5 - i,
        {
            let rem10: u128 = rem * 10;
            let digit: u128 = rem10 / d;
            let left: u128 = rem10 % d;
            proof {
                vstd::arithmetic::div_mod::lemma_fundamental_div_mod(rem10 as int, d as int);
                assert(0 <= digit < 10 && (quot * 10 + digit) * d + left == num * (pow * 10))
                    by (nonlinear_arith)
                    requires
                        rem10 == d * digit + left,
                        0 <= left < d,
                        rem10 == rem * 10,
                        0 <= rem < d,
                        quot * d + rem == num * pow,
                        digit >= 0,
                ;
            }
            quot = quot * 10 + digit;
            rem = left;
            pow = pow * 10;
            i = i + 1;
        }
        proof {
            lemma_fundamental_div_mod_converse(num * 100_000, den as int, quot as int, rem as int);
        }
        quot as i64
    }
}

/// Shortening the range of parameters from its far end changes nothing
/// for a hit that lies within the shorter range, and a hit that is found
/// only within the longer range lies beyond the end of the shorter.
pub proof fn lemma_quad_range(s: Quad, r: Ray, tmin: i64, shorter: i64, longer: i64)
    requires
        shorter <= longer,
    ensures
        s.found(r, Interval { tmin, tmax: shorter }).is_some() ==> s.found(
            r,
            Interval { tmin, tmax: longer },
        ) == s.found(r, Interval { tmin, tmax: shorter }),
        s.found(r, Interval { tmin, tmax: longer }).is_some() && s.found(
            r,
            Interval { tmin, tmax: shorter },
        ).is_none() ==> s.found(r, Interval { tmin, tmax: longer }).unwrap().t > shorter,
        s.found(r, Interval { tmin, tmax: longer }).is_some() ==> tmin <= s.found(
            r,
            Interval { tmin, tmax: longer },
        ).unwrap().t <= longer,
{
}

/// The box of a quad holds the quad: whatever point lies `a / m` of the
/// way along the one edge and `b / m` of the way along the other, both
/// between 0 and 1, lies in the box.
pub proof fn lemma_quad_in_its_box(s: Quad, p: Vec3, a: int, b: int, m: int)
    requires
        s.wf(),
        m > 0,
        0 <= a <= m,
        0 <= b <= m,
        m * (p.x - s.q.x) == a * s.u.x + b * s.v.x,
        m * (p.y - s.q.y) == a * s.u.y + b * s.v.y,
        m * (p.z - s.q.z) == a * s.u.z + b * s.v.z,
    ensures
        s.bbox.x.tmin <= p.x <= s.bbox.x.tmax,
        s.bbox.y.tmin <= p.y <= s.bbox.y.tmax,
        s.bbox.z.tmin <= p.z <= s.bbox.z.tmax,
{
    lemma_between_corners(s.q.x as int, s.u.x as int, s.v.x as int, p.x as int, a, b, m);
    lemma_between_corners(s.q.y as int, s.u.y as int, s.v.y as int, p.y as int, a, b, m);
    lemma_between_corners(s.q.z as int, s.u.z as int, s.v.z as int, p.z as int, a, b, m);
    let first = Aabb::from_points_spec(s.q, s.q.sum_spec(s.u).sum_spec(s.v));
    let second = Aabb::from_points_spec(s.q.sum_spec(s.u), s.q.sum_spec(s.v));
    let joined = Aabb::union_spec(first, second);
    crate::aabb::lemma_pad_axis(joined.x);
    crate::aabb::lemma_pad_axis(joined.y);
    crate::aabb::lemma_pad_axis(joined.z);
    crate::aabb::lemma_pad_axis(
        Interval {
            tmin: min_spec(s.q.x as int, s.q.x + s.u.x + s.v.x) as i64,
            tmax: max_spec(s.q.x as int, s.q.x + s.u.x + s.v.x) as i64,
        },
    );
    crate::aabb::lemma_pad_axis(
        Interval {
            tmin: min_spec(s.q.y as int, s.q.y + s.u.y + s.v.y) as i64,
            tmax: max_spec(s.q.y as int, s.q.y + s.u.y + s.v.y) as i64,
        },
    );
    crate::aabb::lemma_pad_axis(
        Interval {
            tmin: min_spec(s.q.z as int, s.q.z + s.u.z + s.v.z) as i64,
            tmax: max_spec(s.q.z as int, s.q.z + s.u.z + s.v.z) as i64,
        },
    );
    crate::aabb::lemma_pad_axis(
        Interval {
            tmin: min_spec(s.q.x + s.u.x, s.q.x + s.v.x) as i64,
            tmax: max_spec(s.q.x + s.u.x, s.q.x + s.v.x) as i64,
        },
    );
    crate::aabb::lemma_pad_axis(
        Interval {
            tmin: min_spec(s.q.y + s.u.y, s.q.y + s.v.y) as i64,
            tmax: max_spec(s.q.y + s.u.y, s.q.y + s.v.y) as i64,
        },
    );
    crate::aabb::lemma_pad_axis(
        Interval {
            tmin: min_spec(s.q.z + s.u.z, s.q.z + s.v.z) as i64,
            tmax: max_spec(s.q.z + s.u.z, s.q.z + s.v.z) as i64,
        },
    );
}

/// On one axis, a point of a quad lies between the least and the largest
/// of the quad's four corners.
pub proof fn lemma_between_corners(q: int, u: int, v: int, p: int, a: int, b: int, m: int)
    requires
        m > 0,
        0 <= a <= m,
        0 <= b <= m,
        m * (p - q) == a * u + b * v,
    ensures
        min_spec(min_spec(q, q + u + v), min_spec(q + u, q + v)) <= p <= max_spec(
            max_spec(q, q + u + v),
            max_spec(q + u, q + v),
        ),
{
    let lo = min_spec(min_spec(0, u + v), min_spec(u, v));
    let hi = max_spec(max_spec(0, u + v), max_spec(u, v));
    assert(m * lo <= a * u + b * v <= m * hi) by (nonlinear_arith)
        requires
            0 <= a <= m,
            0 <= b <= m,
            lo <= 0,
            lo <= u,
            lo <= v,
            lo <= u + v,
            hi >= 0,
            hi >= u,
            hi >= v,
            hi >= u + v,
    ;
    assert(lo <= p - q <= hi) by (nonlinear_arith)
        requires
            m * lo <= m * (p - q) <= m * hi,
            m > 0,
    ;
}

} // verus!
