//! Spheres, at rest or moving on a line.

use vstd::prelude::*;
use crate::aabb::Aabb;
use crate::hitable::{HitRecord, Hittable, leaf_outcome, Outcome, Sample, Sampler, Shape, World};
use crate::interval::Interval;
use crate::ray::Ray;
use crate::scalar::{
    abs_spec, arc_cosine, arc_cosine_spec, arc_tangent, arc_tangent_spec, COORD_MAX, fdiv_spec,
    floor_div, floor_div_spec, fmul_spec, INFINITY, is_sqrt_floor, isqrt,
    lemma_angles_of_the_axes, lemma_floor_div_bounds, lemma_product_bounded, lemma_sqrt_exists,
    max_spec, nearest, nearest_spec, NEG_INFINITY, PI, sat_add, sat_sub, saturate, saturating,
    SPAN_MAX, sqrt_floor, TWO_PI, UNIT, wide_mul,
};
use crate::utils::fmax;
use crate::vec3::Vec3;

verus! {

/// A sphere. A moving one has its centre at `center1` at time 0 and at
/// `center1 + center_vec` at time one unit.
#[derive(Clone, Copy, Debug, PartialEq, Eq, Structural)]
pub struct Sphere {
    pub center1: Vec3,
    pub radius: i64,
    pub material: usize,
    pub is_moving: bool,
    pub center_vec: Vec3,
    pub bbox: Aabb,
}

/// The radius as a vector: the radius on every axis, or zero for a negative
/// radius.
pub open spec fn reach(radius: int) -> Vec3 {
    Vec3 {
        x: max_spec(radius, 0) as i64,
        y: max_spec(radius, 0) as i64,
        z: max_spec(radius, 0) as i64,
    }
}

pub open spec fn still_box(center: Vec3, radius: int) -> Aabb {
    Aabb::from_points_spec(
        center.difference_spec(reach(radius)),
        center.sum_spec(reach(radius)),
    )
}

/// Where the point `p` of the unit sphere lies on the map of the sphere:
/// `u` runs around the y axis from 0 at −x through +z, −x … back to 1, as
/// the angle `atan2(−z, x) + π` over 2π; `v` runs from 0 at the bottom
/// (−y) to 1 at the top, as the angle `acos(−y)` over π. Both are rounded
/// to the nearest step and brought into `[0, 1]`.
pub open spec fn sphere_uv(p: Vec3) -> (int, int) {
    let unit = Interval { tmin: (-UNIT) as i64, tmax: UNIT };
    let whole = Interval { tmin: 0, tmax: UNIT };
    let theta = arc_cosine_spec(saturate(-p.y));
    let phi = saturate(
        arc_tangent_spec(unit.clamp_spec(saturate(-p.z)), unit.clamp_spec(p.x as int)) + PI,
    );
    (
        whole.clamp_spec(nearest_spec(phi * UNIT, TWO_PI as int)),
        whole.clamp_spec(nearest_spec(theta * UNIT, PI as int)),
    )
}

/// The point of the unit sphere on the z axis lies a quarter of the way
/// round and half the way up.
pub proof fn lemma_uv_on_the_z_axis()
    ensures
        sphere_uv(Vec3 { x: 0, y: 0, z: UNIT }) == (UNIT / 4, UNIT / 2),
        UNIT / 4 == 25_000,
        UNIT / 2 == 50_000,
{
    lemma_angles_of_the_axes(1, 1);
}

/// What a ray and a sphere decide before any hit record is written: the
/// coefficients of the quadratic `|O + tD − C|² = r²` and its roots.
pub struct Quadratic {
    pub a: int,
    pub h: int,
    pub c: int,
}

impl Quadratic {
    pub open spec fn discriminant(self) -> int {
        self.h * self.h - self.a * self.c
    }

    /// The smaller root as a fixed-point parameter, rounded down.
    pub open spec fn near(self) -> int {
        saturate(
            floor_div_spec((self.h - sqrt_floor(self.discriminant())) * UNIT, self.a),
        )
    }

    /// The larger root as a fixed-point parameter, rounded down.
    pub open spec fn far(self) -> int {
        saturate(
            floor_div_spec((self.h + sqrt_floor(self.discriminant())) * UNIT, self.a),
        )
    }

    /// The root that counts: none without a real root, else the smaller one
    /// if it lies strictly inside `ray_t`, else the larger one if that does.
    pub open spec fn root(self, ray_t: Interval) -> Option<int> {
        if self.a <= 0 || self.discriminant() < 0 {
            None
        } else if ray_t.tmin < self.near() < ray_t.tmax {
            Some(self.near())
        } else if ray_t.tmin < self.far() < ray_t.tmax {
            Some(self.far())
        } else {
            None
        }
    }
}

impl Sphere {
    /// The sphere lies in the scene's range, has a radius other than zero,
    /// and carries the box that bounds it at every time.
    pub open spec fn wf(&self) -> bool {
        &&& self.center1.within(COORD_MAX as int)
        &&& self.center1.sum_spec(self.center_vec).within(COORD_MAX as int)
        &&& self.center_vec.within(SPAN_MAX as int)
        &&& self.radius != 0
        &&& -COORD_MAX <= self.radius <= COORD_MAX
        &&& !self.is_moving ==> self.center_vec == (Vec3 { x: 0, y: 0, z: 0 })
        &&& self.bbox == Aabb::union_spec(
            still_box(self.center1, self.radius as int),
            still_box(self.center1.sum_spec(self.center_vec), self.radius as int),
        )
    }

    pub open spec fn center_spec(&self, time: int) -> Vec3 {
        self.center1.sum_spec(self.center_vec.scale_spec(time))
    }

    /// The centre as the ray `r` sees it.
    pub open spec fn center_for(&self, r: Ray) -> Vec3 {
        if self.is_moving {
            self.center_spec(r.time as int)
        } else {
            self.center1
        }
    }

    pub open spec fn quadratic(&self, r: Ray) -> Quadratic {
        let oc = self.center_for(r).difference_spec(r.a_origin);
        Quadratic {
            a: r.b_direction.dot_spec(r.b_direction),
            h: r.b_direction.dot_spec(oc),
            c: oc.dot_spec(oc) - self.radius * self.radius,
        }
    }

    /// The hit, if there is one: the sphere is hit where the quadratic has
    /// a root that counts. The surface coordinates are those of the normal,
    /// see [`sphere_uv`].
    pub open spec fn found(&self, r: Ray, ray_t: Interval) -> Option<HitRecord> {
        match self.quadratic(r).root(ray_t) {
            None => None,
            Some(t) => {
                let center = self.center_for(r);
                let point = r.at_spec(t);
                let outward = point.difference_spec(center);
                let front = outward.dot_spec(r.b_direction) < 0;
                let normal = if front {
                    outward.quotient_spec(self.radius as int)
                } else {
                    center.difference_spec(point).quotient_spec(self.radius as int)
                };
                Some(
                    HitRecord {
                        t: t as i64,
                        point,
                        normal,
                        material: self.material,
                        front_face: front,
                        u: sphere_uv(normal).0 as i64,
                        v: sphere_uv(normal).1 as i64,
                    },
                )
            },
        }
    }

    /// Whether the sphere is well formed, see [`Sphere::wf`].
    pub fn is_wf(&self) -> (r: bool)
        ensures
            r == self.wf(),
    {
        if !(self.center1.is_within(COORD_MAX) && self.center_vec.is_within(SPAN_MAX)
            && self.radius != 0 && -COORD_MAX <= self.radius && self.radius <= COORD_MAX) {
            return false;
        }
        let center2: Vec3 = self.center1 + self.center_vec;
        if !center2.is_within(COORD_MAX) {
            return false;
        }
        if !self.is_moving && !self.center_vec.near_zero() {
            return false;
        }
        let b1 = still_box_of(self.center1, self.radius);
        let b2 = still_box_of(center2, self.radius);
        self.bbox == Aabb::new_from_bbox(b1, b2)
    }

    /// A sphere at rest.
    pub fn new(center1: Vec3, radius: i64, material: usize) -> (s: Sphere)
        requires
            center1.within(COORD_MAX as int),
            radius != 0,
            -COORD_MAX <= radius <= COORD_MAX,
        ensures
            s.wf(),
            s.center1 == center1,
            s.radius == radius,
            s.material == material,
            !s.is_moving,
            s.bbox == still_box(center1, radius as int),
            s.bbox.is_padded() && s.bbox.is_solid(),
    {
        let bbox = still_box_of(center1, radius);
        proof {
            lemma_union_idempotent(bbox);
        }
        Sphere { center1, radius, material, is_moving: false, center_vec: Vec3::zero(), bbox }
    }

    /// A sphere whose centre moves from `center1` to `center2` while time
    /// runs from 0 to one unit.
    pub fn new_moving(center1: Vec3, center2: Vec3, radius: i64, material: usize) -> (s: Sphere)
        requires
            center1.within(COORD_MAX as int),
            center2.within(COORD_MAX as int),
            radius != 0,
            -COORD_MAX <= radius <= COORD_MAX,
        ensures
            s.wf(),
            s.center1 == center1,
            s.center_vec == center2.difference_spec(center1),
            s.radius == radius,
            s.material == material,
            s.is_moving,
            s.bbox == Aabb::union_spec(
                still_box(center1, radius as int),
                still_box(center2, radius as int),
            ),
            s.bbox.is_padded() && s.bbox.is_solid(),
    {
        let bbox1 = still_box_of(center1, radius);
        let bbox2 = still_box_of(center2, radius);
        let center_vec = center2 - center1;
        assert(center1.sum_spec(center_vec) == center2);
        Sphere {
            center1,
            radius,
            material,
            is_moving: true,
            center_vec,
            bbox: Aabb::new_from_bbox(bbox1, bbox2),
        }
    }

    pub fn bounding_box(&self) -> (b: Aabb)
        ensures
            b == self.bbox,
    {
        self.bbox
    }

    /// The centre at `time`.
    pub fn sphere_center(&self, time: i64) -> (c: Vec3)
        ensures
            c == self.center_spec(time as int),
            self.wf() && 0 <= time <= UNIT ==> c.within(COORD_MAX as int),
    {
        proof {
            if 0 <= time <= UNIT {
                lemma_fraction_between(self.center_vec.x as int, time as int);
                lemma_fraction_between(self.center_vec.y as int, time as int);
                lemma_fraction_between(self.center_vec.z as int, time as int);
            }
        }
        self.center1 + self.center_vec * time
    }

    /// The surface coordinates of the point of the unit sphere at `p`, see
    /// [`sphere_uv`].
    pub fn get_sphere_uv(p: Vec3, u: &mut i64, v: &mut i64)
        ensures
            *final(u) == sphere_uv(p).0,
            *final(v) == sphere_uv(p).1,
            0 <= *final(u) <= UNIT,
            0 <= *final(v) <= UNIT,
    {
        let unit: Interval = Interval::new(-UNIT, UNIT);
        let whole: Interval = Interval::new(0, UNIT);
        let theta: i64 = arc_cosine(sat_sub(0, p.y));
        let phi: i64 = sat_add(
            arc_tangent(unit.clamp(sat_sub(0, p.z)), unit.clamp(p.x)),
            PI,
        );
        let around: i128 = nearest(phi as i128 * 100_000, TWO_PI as i128);
        let up: i128 = nearest(theta as i128 * 100_000, PI as i128);
        proof {
            lemma_floor_div_bounds(2 * (phi * 100_000) + TWO_PI, 2 * TWO_PI);
            lemma_floor_div_bounds(2 * (theta * 100_000) + PI, 2 * PI);
        }
        *u = whole.clamp(around as i64);
        *v = whole.clamp(up as i64);
    }

    /// Solves the quadratic for the ray, picks the root that counts and, on
    /// a hit, writes the record. A miss leaves the record as it was.
    pub fn hit(&self, r: &Ray, ray_t: &Interval, rec: &mut HitRecord) -> (b: bool)
        requires
            self.wf(),
            r.in_range(),
        ensures
            b == self.found(*r, *ray_t).is_some(),
            b ==> *final(rec) == self.found(*r, *ray_t).unwrap(),
            !b ==> *final(rec) == *old(rec),
            b ==> ray_t.tmin < final(rec).t < ray_t.tmax,
    {
        let center = if self.is_moving {
            self.sphere_center(r.time())
        } else {
            self.center1
        };
        let oc = center - r.origin();
        let dir = r.direction();
        let (near, far): (i64, i64) = match roots(coefficients(dir, oc, self.radius)) {
            None => {
                return false;
            },
            Some(pair) => pair,
        };
        let mut temp: i64 = near;
        if !ray_t.surrounds(temp) {
            temp = far;
            if !ray_t.surrounds(temp) {
                return false;
            }
        }
        let point: Vec3 = r.at(temp);
        let outward: Vec3 = point - center;
        proof {
            lemma_point_within_span(r.a_origin, dir, center, self.radius as int, temp as int);
        }
        rec.t = temp;
        rec.point = point;
        rec.front_face = outward * dir < 0;
        rec.normal = if rec.front_face {
            outward / self.radius
        } else {
            (center - point) / self.radius
        };
        rec.material = self.material;
        let normal: Vec3 = rec.normal;
        let mut u: i64 = 0;
        let mut v: i64 = 0;
        Self::get_sphere_uv(normal, &mut u, &mut v);
        rec.u = u;
        rec.v = v;
        true
    }
}

impl Hittable for Sphere {
    open spec fn wf_at(&self, me: int) -> bool {
        self.wf()
    }

    open spec fn as_shape(self) -> Shape {
        Shape::Sphere(self)
    }

    open spec fn hit_spec(
        &self,
        shapes: Seq<Shape>,
        me: int,
        r: Ray,
        ray_t: Interval,
        rec: HitRecord,
        tape: Seq<Sample>,
        next: usize,
    ) -> Outcome {
        leaf_outcome(self.found(r, ray_t), rec, next)
    }

    open spec fn box_spec(&self, shapes: Seq<Shape>, me: int) -> Aabb {
        self.bbox
    }

    fn hit(
        &self,
        world: &World,
        me: usize,
        r: &Ray,
        ray_t: Interval,
        rec: &mut HitRecord,
        sampler: &mut Sampler,
    ) -> (b: bool) {
        self.hit(r, &ray_t, rec)
    }

    fn bounding_box(&self, world: &World, me: usize) -> (b: Aabb) {
        self.bbox
    }

    fn instancing(self, world: &mut World) -> (h: usize) {
        world.add(Shape::Sphere(self))
    }
}

/// The largest magnitude of a coefficient of the quadratic.
pub const COEFFICIENT_MAX: i128 = 0x4000_0000_0000_0000;

impl Quadratic {
    /// The coefficients are small enough for the discriminant to be
    /// computed.
    pub open spec fn bounded(self) -> bool {
        &&& -COEFFICIENT_MAX <= self.a <= COEFFICIENT_MAX
        &&& -COEFFICIENT_MAX <= self.h <= COEFFICIENT_MAX
        &&& -COEFFICIENT_MAX <= self.c <= COEFFICIENT_MAX
    }
}

/// The coefficients of the quadratic for a ray with the direction `dir`
/// whose origin is at `oc` from the centre of a sphere: `a`, `h` and `c`.
pub fn coefficients(dir: Vec3, oc: Vec3, radius: i64) -> (q: (i128, i128, i128))
    requires
        dir.within(SPAN_MAX as int),
        oc.within(SPAN_MAX as int),
        -COORD_MAX <= radius <= COORD_MAX,
    ensures
        q.0 == dir.dot_spec(dir),
        q.1 == dir.dot_spec(oc),
        q.2 == oc.dot_spec(oc) - radius * radius,
        (Quadratic { a: q.0 as int, h: q.1 as int, c: q.2 as int }).bounded(),
{
    let a: i128 = dir * dir;
    let h: i128 = dir * oc;
    let oc2: i128 = oc * oc;
    let r2: i128 = wide_mul(radius, radius);
    proof {
        let m = SPAN_MAX as int;
        assert(m * m == 0x1000_0000_0000_0000) by (nonlinear_arith)
            requires
                m == 0x4000_0000,
        ;
        lemma_product_bounded(dir.x as int, dir.x as int, m, m);
        lemma_product_bounded(dir.y as int, dir.y as int, m, m);
        lemma_product_bounded(dir.z as int, dir.z as int, m, m);
        lemma_product_bounded(dir.x as int, oc.x as int, m, m);
        lemma_product_bounded(dir.y as int, oc.y as int, m, m);
        lemma_product_bounded(dir.z as int, oc.z as int, m, m);
        lemma_product_bounded(oc.x as int, oc.x as int, m, m);
        lemma_product_bounded(oc.y as int, oc.y as int, m, m);
        lemma_product_bounded(oc.z as int, oc.z as int, m, m);
        lemma_product_bounded(radius as int, radius as int, m, m);
    }
    (a, h, oc2 - r2)
}

/// The two roots of the quadratic with the coefficients `a`, `h` and `c`,
/// as fixed-point parameters, the smaller first; nothing where there is no
/// real root, or no quadratic.
pub fn roots(q: (i128, i128, i128)) -> (r: Option<(i64, i64)>)
    requires
        (Quadratic { a: q.0 as int, h: q.1 as int, c: q.2 as int }).bounded(),
    ensures
        ({
            let quadratic = Quadratic { a: q.0 as int, h: q.1 as int, c: q.2 as int };
            &&& r.is_none() == (quadratic.a <= 0 || quadratic.discriminant() < 0)
            &&& r.is_some() ==> r.unwrap() == (quadratic.near() as i64, quadratic.far() as i64)
        }),
{
    let (a, h, c) = q;
    proof {
        let k = COEFFICIENT_MAX as int;
        lemma_product_bounded(h as int, h as int, k, k);
        lemma_product_bounded(a as int, c as int, k, k);
        assert(k * k == 0x1000_0000_0000_0000_0000_0000_0000_0000int) by (nonlinear_arith)
            requires
                k == 0x4000_0000_0000_0000int,
        ;
    }
    let delta: i128 = h * h - a * c;
    if a <= 0 || delta < 0 {
        return None;
    }
    let s: i128 = isqrt(delta as u128) as i128;
    let near: i64 = saturating(floor_div((h - s) * 100_000, a));
    let far: i64 = saturating(floor_div((h + s) * 100_000, a));
    Some((near, far))
}

/// The box of a sphere at rest.
pub fn still_box_of(center: Vec3, radius: i64) -> (b: Aabb)
    requires
        center.within(COORD_MAX as int),
        -COORD_MAX <= radius <= COORD_MAX,
    ensures
        b == still_box(center, radius as int),
        b.is_padded(),
        b.is_solid(),
{
    let rvec = Vec3::new(fmax(radius, 0), fmax(radius, 0), fmax(radius, 0));
    Aabb::new_from_point(center - rvec, center + rvec)
}

/// A box joined with itself is the box.
pub proof fn lemma_union_idempotent(b: Aabb)
    ensures
        Aabb::union_spec(b, b) == b,
{
}

/// A fraction `t / UNIT` between 0 and 1 of a length lies between 0 and the
/// length.
pub proof fn lemma_fraction_between(length: int, t: int)
    requires
        0 <= t <= UNIT,
    ensures
        length >= 0 ==> 0 <= (length * t) / (UNIT as int) <= length,
        length <= 0 ==> length <= (length * t) / (UNIT as int) <= 0,
{
    let u = UNIT as int;
    let n = length * t;
    lemma_floor_div_bounds(n, u);
    let q = n / u;
    if length >= 0 {
        assert(0 <= n <= length * u) by (nonlinear_arith)
            requires
                n == length * t,
                0 <= t <= u,
                length >= 0,
        ;
        assert(0 <= q <= length) by (nonlinear_arith)
            requires
                q * u <= n,
                n < (q + 1) * u,
                0 <= n <= length * u,
                u > 0,
        ;
    } else {
        assert(length * u <= n <= 0) by (nonlinear_arith)
            requires
                n == length * t,
                0 <= t <= u,
                length <= 0,
        ;
        assert(length <= q <= 0) by (nonlinear_arith)
            requires
                q * u <= n,
                n < (q + 1) * u,
                length * u <= n <= 0,
                u > 0,
        ;
    }
}

/// A ray that is fired straight at the centre of a sphere about the origin,
/// from the distance `d` on the z axis, with a direction of unit length,
/// hits the sphere of radius `r` at the parameter `d − r`, at the point
/// nearest to its origin, and the normal there points back at the origin of
/// the ray.
pub proof fn lemma_head_on_hit(s: Sphere, d: i64, time: i64, ray_t: Interval)
    requires
        s.wf(),
        !s.is_moving,
        s.center1 == (Vec3 { x: 0, y: 0, z: 0 }),
        0 < s.radius < d <= COORD_MAX,
        0 <= time <= UNIT,
        ray_t.tmin < d - s.radius < ray_t.tmax,
    ensures
        s.found(
            Ray {
                a_origin: Vec3 { x: 0, y: 0, z: d },
                b_direction: Vec3 { x: 0, y: 0, z: (-UNIT) as i64 },
                time,
            },
            ray_t,
        ) == Some(
            HitRecord {
                t: (d - s.radius) as i64,
                point: Vec3 { x: 0, y: 0, z: s.radius },
                normal: Vec3 { x: 0, y: 0, z: UNIT },
                material: s.material,
                front_face: true,
                u: 25_000,
                v: 50_000,
            },
        ),
{
    let r = s.radius as int;
    let u = UNIT as int;
    let dd = d as int;
    let ray = Ray {
        a_origin: Vec3 { x: 0, y: 0, z: d },
        b_direction: Vec3 { x: 0, y: 0, z: (-UNIT) as i64 },
        time,
    };
    let q = s.quadratic(ray);
    let t = dd - r;
    // the quadratic
    assert(q.a == u * u && q.h == u * dd && q.c == dd * dd - r * r) by (nonlinear_arith)
        requires
            q.a == 0 * 0 + 0 * 0 + (-u) * (-u),
            q.h == 0 * 0 + 0 * 0 + (-u) * (-dd),
            q.c == 0 * 0 + 0 * 0 + (-dd) * (-dd) - r * r,
    ;
    assert(q.discriminant() == (u * r) * (u * r)) by (nonlinear_arith)
        requires
            q.discriminant() == q.h * q.h - q.a * q.c,
            q.a == u * u,
            q.h == u * dd,
            q.c == dd * dd - r * r,
    ;
    assert(is_sqrt_floor(q.discriminant(), u * r)) by (nonlinear_arith)
        requires
            q.discriminant() == (u * r) * (u * r),
            u * r >= 0,
    ;
    assert(u * r >= 0) by (nonlinear_arith)
        requires
            u > 0,
            r > 0,
    ;
    // the square root of a square
    let root = sqrt_floor(q.discriminant());
    assert(is_sqrt_floor(q.discriminant(), root));
    crate::scalar::lemma_sqrt_floor_unique(q.discriminant(), root, u * r);
    // the smaller root
    assert((q.h - root) * u == t * (u * u)) by (nonlinear_arith)
        requires
            q.h == u * dd,
            root == u * r,
            t == dd - r,
    ;
    lemma_exact_quotient(t, u * u);
    assert(q.near() == t);
    assert(q.root(ray_t) == Some(t));
    // the point
    assert((-u) * t == (-t) * u && 0 * t == 0 * u) by (nonlinear_arith);
    lemma_exact_quotient(-t, u);
    lemma_exact_quotient(0, u);
    assert(ray.at_spec(t) == (Vec3 { x: 0, y: 0, z: s.radius }));
    // the normal
    assert(0 * u == 0 * r) by (nonlinear_arith);
    assert(r * u == u * r) by (nonlinear_arith);
    lemma_exact_quotient(0, r);
    lemma_exact_quotient(u, r);
    assert(0 * 0 + 0 * 0 + r * (-u) < 0) by (nonlinear_arith)
        requires
            r > 0,
            u > 0,
    ;
    // the surface coordinates
    lemma_uv_on_the_z_axis();
}

/// A multiple of a positive number, divided by the number, is the
/// multiplier.
pub proof fn lemma_exact_quotient(k: int, m: int)
    requires
        m > 0,
    ensures
        (k * m) / m == k,
        floor_div_spec(k * m, m) == k,
{
    vstd::arithmetic::div_mod::lemma_fundamental_div_mod_converse(k * m, m, k, 0);
}

/// Shortening the range of parameters from its far end changes nothing
/// for a hit that lies within the shorter range, and a hit that is found
/// only within the longer range lies at or beyond the end of the shorter.
pub proof fn lemma_sphere_range(s: Sphere, r: Ray, tmin: i64, shorter: i64, longer: i64)
    requires
        shorter <= longer,
    ensures
        s.found(r, Interval { tmin, tmax: shorter }).is_some() ==> s.found(
            r,
            Interval { tmin, tmax: longer },
        ) == s.found(r, Interval { tmin, tmax: shorter }),
        s.found(r, Interval { tmin, tmax: longer }).is_some() && s.found(
            r,
            Interval { tmin, tmax: shorter },
        ).is_none() ==> s.found(r, Interval { tmin, tmax: longer }).unwrap().t >= shorter,
        s.found(r, Interval { tmin, tmax: longer }).is_some() ==> tmin < s.found(
            r,
            Interval { tmin, tmax: longer },
        ).unwrap().t < longer,
{
    let q = s.quadratic(r);
    if q.a > 0 && q.discriminant() >= 0 {
        lemma_roots_in_order(q);
    }
}

/// The smaller root is no larger than the larger one.
pub proof fn lemma_roots_in_order(q: Quadratic)
    requires
        q.a > 0,
        q.discriminant() >= 0,
    ensures
        q.near() <= q.far(),
{
    let root = sqrt_floor(q.discriminant());
    lemma_sqrt_exists(q.discriminant());
    let lower = (q.h - root) * UNIT;
    let upper = (q.h + root) * UNIT;
    assert(lower <= upper) by (nonlinear_arith)
        requires
            lower == (q.h - root) * UNIT,
            upper == (q.h + root) * UNIT,
            root >= 0,
            UNIT > 0,
    ;
    vstd::arithmetic::div_mod::lemma_div_is_ordered(lower, upper, q.a);
}

/// The box of a sphere holds the sphere at every time: whatever point is
/// no farther from the centre at a time between 0 and one unit than the
/// radius lies in the box.
pub proof fn lemma_sphere_in_its_box(s: Sphere, time: i64, p: Vec3)
    requires
        s.wf(),
        s.radius > 0,
        0 <= time <= UNIT,
        p.within(SPAN_MAX as int),
        p.difference_spec(s.center_spec(time as int)).dot_spec(
            p.difference_spec(s.center_spec(time as int)),
        ) <= s.radius * s.radius,
    ensures
        s.bbox.x.tmin <= p.x <= s.bbox.x.tmax,
        s.bbox.y.tmin <= p.y <= s.bbox.y.tmax,
        s.bbox.z.tmin <= p.z <= s.bbox.z.tmax,
{
    let c = s.center_spec(time as int);
    lemma_fraction_between(s.center_vec.x as int, time as int);
    lemma_fraction_between(s.center_vec.y as int, time as int);
    lemma_fraction_between(s.center_vec.z as int, time as int);
    let d = p.difference_spec(c);
    let r = s.radius as int;
    assert(d.x * d.x >= 0 && d.y * d.y >= 0 && d.z * d.z >= 0) by (nonlinear_arith);
    lemma_within_radius(d.x as int, r);
    lemma_within_radius(d.y as int, r);
    lemma_within_radius(d.z as int, r);
    let first = still_box(s.center1, r);
    let second = still_box(s.center1.sum_spec(s.center_vec), r);
    crate::aabb::lemma_pad_axis(
        Interval {
            tmin: (s.center1.x - r) as i64,
            tmax: (s.center1.x + r) as i64,
        },
    );
    crate::aabb::lemma_pad_axis(
        Interval {
            tmin: (s.center1.y - r) as i64,
            tmax: (s.center1.y + r) as i64,
        },
    );
    crate::aabb::lemma_pad_axis(
        Interval {
            tmin: (s.center1.z - r) as i64,
            tmax: (s.center1.z + r) as i64,
        },
    );
    crate::aabb::lemma_pad_axis(
        Interval {
            tmin: (s.center1.x + s.center_vec.x - r) as i64,
            tmax: (s.center1.x + s.center_vec.x + r) as i64,
        },
    );
    crate::aabb::lemma_pad_axis(
        Interval {
            tmin: (s.center1.y + s.center_vec.y - r) as i64,
            tmax: (s.center1.y + s.center_vec.y + r) as i64,
        },
    );
    crate::aabb::lemma_pad_axis(
        Interval {
            tmin: (s.center1.z + s.center_vec.z - r) as i64,
            tmax: (s.center1.z + s.center_vec.z + r) as i64,
        },
    );
}

/// Where the rounded root of a quadratic puts the point of the ray.
///
/// For the quadratic with the coefficients `a`, `h` and `cc − rr`, the
/// integer `g` that is no larger than the square root of its discriminant,
/// and the parameter `t` that is `(h − g) · u / a` or `(h + g) · u / a`,
/// rounded down: the square of the distance from the centre to the point at
/// `t`, in units of `1 / u`, is no larger than `u² · rr + 2 · u · g + a`.
/// Where `g` is the square root rounded down, that square, times `a`, is
/// no smaller than `u² · (a · rr − 2 · g − 1) − 2 · u · a · g`.
pub proof fn lemma_rounded_root(a: int, h: int, cc: int, rr: int, g: int, m: int, t: int, u: int)
    requires
        a > 0,
        u > 0,
        g >= 0,
        m == h - g || m == h + g,
        g * g <= h * h - a * (cc - rr),
        a * t <= m * u < a * t + a,
    ensures
        u * u * cc - 2 * u * t * h + a * t * t <= u * u * rr + 2 * u * g + a,
        h * h - a * (cc - rr) < (g + 1) * (g + 1) ==> a * (u * u * cc - 2 * u * t * h + a * t * t)
            >= u * u * (a * rr - 2 * g - 1) - 2 * u * a * g,
{
    let e = m * u - a * t;
    let x = a * t;
    let w = u * u * cc - 2 * u * t * h + a * t * t;
    let bound = u * u * rr + 2 * u * g + a;
    let pcc = a * (u * u * cc);
    let prr = a * (u * u * rr);
    let gg = u * u * (g * g);
    let hh = u * u * (h * h);
    let mm = u * u * (m * m);
    let hm = u * u * (h * m);
    let turn = u * e * (m - h);
    let uag = u * a * g;
    let c1 = u * u * cc;
    let c2 = 2 * u * t * h;
    let c3 = a * t * t;
    assert(a * w == a * c1 - a * c2 + a * c3) by (nonlinear_arith)
        requires
            w == c1 - c2 + c3,
    ;
    assert(a * c2 == 2 * (u * h * x)) by (nonlinear_arith)
        requires
            c2 == 2 * u * t * h,
            x == a * t,
    ;
    assert(a * c3 == x * x) by (nonlinear_arith)
        requires
            c3 == a * t * t,
            x == a * t,
    ;
    assert(a * w == pcc - 2 * (u * h * x) + x * x);
    assert(x * x == mm - 2 * (u * e * m) + e * e) by (nonlinear_arith)
        requires
            x == m * u - e,
            mm == u * u * (m * m),
    ;
    assert(u * h * x == hm - u * e * h) by (nonlinear_arith)
        requires
            x == m * u - e,
            hm == u * u * (h * m),
    ;
    assert(turn == u * e * m - u * e * h) by (nonlinear_arith)
        requires
            turn == u * e * (m - h),
    ;
    assert(mm - 2 * hm == gg - hh) by (nonlinear_arith)
        requires
            m == h - g || m == h + g,
            mm == u * u * (m * m),
            hm == u * u * (h * m),
            gg == u * u * (g * g),
            hh == u * u * (h * h),
    ;
    assert(-turn <= uag) by (nonlinear_arith)
        requires
            turn == u * e * (m - h),
            uag == u * a * g,
            m == h - g || m == h + g,
            0 <= e < a,
            g >= 0,
            u > 0,
    ;
    assert(e * e <= a * a) by (nonlinear_arith)
        requires
            0 <= e < a,
    ;
    assert(pcc + gg - hh <= prr) by (nonlinear_arith)
        requires
            g * g <= h * h - a * (cc - rr),
            u > 0,
            pcc == a * (u * u * cc),
            prr == a * (u * u * rr),
            gg == u * u * (g * g),
            hh == u * u * (h * h),
    ;
    assert(a * bound == prr + 2 * uag + a * a) by (nonlinear_arith)
        requires
            bound == u * u * rr + 2 * u * g + a,
            prr == a * (u * u * rr),
            uag == u * a * g,
    ;
    assert(a * w <= a * bound);
    assert(w <= bound) by (nonlinear_arith)
        requires
            a * w <= a * bound,
            a > 0,
    ;
    if h * h - a * (cc - rr) < (g + 1) * (g + 1) {
        assert(-turn >= -uag) by (nonlinear_arith)
            requires
                turn == u * e * (m - h),
                uag == u * a * g,
                m == h - g || m == h + g,
                0 <= e < a,
                g >= 0,
                u > 0,
        ;
        assert(e * e >= 0) by (nonlinear_arith);
        let slack = u * u * (2 * g + 1);
        assert(pcc + gg - hh >= prr - slack) by (nonlinear_arith)
            requires
                h * h - a * (cc - rr) < (g + 1) * (g + 1),
                u > 0,
                pcc == a * (u * u * cc),
                prr == a * (u * u * rr),
                gg == u * u * (g * g),
                hh == u * u * (h * h),
                slack == u * u * (2 * g + 1),
        ;
        assert(u * u * (a * rr - 2 * g - 1) == prr - slack) by (nonlinear_arith)
            requires
                prr == a * (u * u * rr),
                slack == u * u * (2 * g + 1),
        ;
        assert(2 * u * a * g == 2 * uag) by (nonlinear_arith)
            requires
                uag == u * a * g,
        ;
    }
}

/// The square of a difference of two products.
pub proof fn lemma_square_of_difference(u: int, p: int, t: int, q: int)
    ensures
        (u * p - t * q) * (u * p - t * q) == (u * u) * (p * p) - (2 * u * t) * (q * p) + (q * q)
            * (t * t),
{
    let up = u * p;
    let tq = t * q;
    assert((up - tq) * (up - tq) == up * up - 2 * (up * tq) + tq * tq) by (nonlinear_arith);
    assert(up * up == (u * u) * (p * p)) by (nonlinear_arith)
        requires
            up == u * p,
    ;
    assert(tq * tq == (q * q) * (t * t)) by (nonlinear_arith)
        requires
            tq == t * q,
    ;
    assert(2 * (up * tq) == (2 * u * t) * (q * p)) by (nonlinear_arith)
        requires
            up == u * p,
            tq == t * q,
    ;
}

/// Every hit lies on the sphere but for rounding: the square of the
/// distance from the centre to the point of the ray at the parameter of the
/// hit, taken before the point is rounded and in units of `1 / UNIT` steps,
/// is the square of the radius to within the bounds that
/// [`lemma_rounded_root`] gives, where `g` is the square root of the
/// discriminant, rounded down.
pub proof fn lemma_hit_is_on_the_sphere(s: Sphere, r: Ray, ray_t: Interval)
    requires
        s.found(r, ray_t).is_some(),
    ensures
        ({
            let q = s.quadratic(r);
            let t = s.found(r, ray_t).unwrap().t as int;
            let g = sqrt_floor(q.discriminant());
            let rr = s.radius * s.radius;
            let square = UNIT * UNIT * (q.c + rr) - 2 * UNIT * t * q.h + q.a * t * t;
            &&& s.found(r, ray_t).unwrap().point == r.at_spec(t)
            &&& square <= UNIT * UNIT * rr + 2 * UNIT * g + q.a
            &&& q.a * square >= UNIT * UNIT * (q.a * rr - 2 * g - 1) - 2 * UNIT * q.a * g
        }),
{
    let u = UNIT as int;
    let q = s.quadratic(r);
    let t = s.found(r, ray_t).unwrap().t as int;
    let g = sqrt_floor(q.discriminant());
    let rr = s.radius * s.radius;
    lemma_sqrt_exists(q.discriminant());
    let m = if t == q.near() {
        q.h - g
    } else {
        q.h + g
    };
    lemma_floor_div_bounds(m * u, q.a);
    assert((t + 1) * q.a == q.a * t + q.a && t * q.a == q.a * t) by (nonlinear_arith);
    lemma_rounded_root(q.a, q.h, q.c + rr, rr, g, m, t, u);
}

/// One coordinate of the point of a ray, seen from the centre of a sphere:
/// where the point at the parameter `t` is, before any rounding, within
/// `2³⁰ − 2` units of `1 / UNIT` steps of the centre, the rounded
/// coordinate is within a span of it.
pub proof fn lemma_coordinate_within_span(o: int, d: int, c: int, t: int, w: int)
    requires
        -COORD_MAX <= o <= COORD_MAX,
        -COORD_MAX <= c <= COORD_MAX,
        w == UNIT * (c - o) - t * d,
        w * w <= (UNIT * 0x3fff_fffe) * (UNIT * 0x3fff_fffe),
    ensures
        -SPAN_MAX <= saturate(saturate(o + fmul_spec(d, t)) - c) <= SPAN_MAX,
        saturate(saturate(o + fmul_spec(d, t)) - c) == o + (d * t) / (UNIT as int) - c,
{
    let u = UNIT as int;
    lemma_within_radius(w, u * 0x3fff_fffe);
    lemma_floor_div_bounds(d * t, u);
    let f = (d * t) / u;
    assert(d * t == t * d) by (nonlinear_arith);
    assert(f * u == u * f) by (nonlinear_arith);
    assert((f + 1) * u == u * f + u) by (nonlinear_arith);
}

/// The point at which a ray meets a sphere lies within a span of the
/// centre on every axis, whatever the rounding of the root and of the point
/// has done: for a centre and an origin in the scene, a direction that is a
/// span, a radius of no more than half a span, and either root of the
/// quadratic, where it is finite.
pub proof fn lemma_point_within_span(o: Vec3, d: Vec3, c: Vec3, radius: int, t: int)
    requires
        o.within(COORD_MAX as int),
        c.within(COORD_MAX as int),
        d.within(SPAN_MAX as int),
        -COORD_MAX <= radius <= COORD_MAX,
        d.dot_spec(d) > 0,
        (Quadratic {
            a: d.dot_spec(d),
            h: d.dot_spec(c.difference_spec(o)),
            c: c.difference_spec(o).dot_spec(c.difference_spec(o)) - radius * radius,
        }).discriminant() >= 0,
        NEG_INFINITY < t < INFINITY,
        t == (Quadratic {
            a: d.dot_spec(d),
            h: d.dot_spec(c.difference_spec(o)),
            c: c.difference_spec(o).dot_spec(c.difference_spec(o)) - radius * radius,
        }).near() || t == (Quadratic {
            a: d.dot_spec(d),
            h: d.dot_spec(c.difference_spec(o)),
            c: c.difference_spec(o).dot_spec(c.difference_spec(o)) - radius * radius,
        }).far(),
    ensures
        o.sum_spec(d.scale_spec(t)).difference_spec(c).within(SPAN_MAX as int),
{
    let u = UNIT as int;
    let oc = c.difference_spec(o);
    let a = d.dot_spec(d);
    let h = d.dot_spec(oc);
    let cc = oc.dot_spec(oc);
    let rr = radius * radius;
    let q = Quadratic { a, h, c: cc - rr };
    let g = sqrt_floor(q.discriminant());
    lemma_sqrt_exists(q.discriminant());
    let m = if t == q.near() {
        h - g
    } else {
        h + g
    };
    lemma_floor_div_bounds(m * u, a);
    assert((t + 1) * a == a * t + a && t * a == a * t) by (nonlinear_arith);
    lemma_rounded_root(a, h, cc, rr, g, m, t, u);
    // how large the parts can be
    let span = SPAN_MAX as int;
    lemma_product_bounded(d.x as int, d.x as int, span, span);
    lemma_product_bounded(d.y as int, d.y as int, span, span);
    lemma_product_bounded(d.z as int, d.z as int, span, span);
    lemma_product_bounded(d.x as int, oc.x as int, span, span);
    lemma_product_bounded(d.y as int, oc.y as int, span, span);
    lemma_product_bounded(d.z as int, oc.z as int, span, span);
    lemma_product_bounded(radius, radius, COORD_MAX as int, COORD_MAX as int);
    assert(radius * radius >= 0) by (nonlinear_arith);
    assert(span * span == 0x1000_0000_0000_0000) by (nonlinear_arith)
        requires
            span == 0x4000_0000,
    ;
    assert(COORD_MAX * COORD_MAX == 0x400_0000_0000_0000) by (nonlinear_arith);
    assert(oc.x * oc.x >= 0 && oc.y * oc.y >= 0 && oc.z * oc.z >= 0) by (nonlinear_arith);
    assert(h * h <= 0x3000_0000_0000_0000 * 0x3000_0000_0000_0000) by (nonlinear_arith)
        requires
            -0x3000_0000_0000_0000 <= h <= 0x3000_0000_0000_0000,
    ;
    assert(a * (cc - rr) >= -(0x3000_0000_0000_0000 * 0x400_0000_0000_0000)) by (nonlinear_arith)
        requires
            0 < a <= 0x3000_0000_0000_0000,
            cc >= 0,
            0 <= rr <= 0x400_0000_0000_0000,
    ;
    assert(g < 0x4000_0000_0000_0000) by (nonlinear_arith)
        requires
            g >= 0,
            g * g <= h * h - a * (cc - rr),
            h * h <= 0x3000_0000_0000_0000 * 0x3000_0000_0000_0000,
            a * (cc - rr) >= -(0x3000_0000_0000_0000 * 0x400_0000_0000_0000),
    ;
    let bound = u * u * rr + 2 * u * g + a;
    let limit = (u * 0x3fff_fffe) * (u * 0x3fff_fffe);
    assert(bound <= limit) by (nonlinear_arith)
        requires
            bound == u * u * rr + 2 * u * g + a,
            limit == (u * 0x3fff_fffe) * (u * 0x3fff_fffe),
            u == 100_000,
            0 <= rr <= 0x400_0000_0000_0000,
            0 <= g < 0x4000_0000_0000_0000,
            0 < a <= 0x3000_0000_0000_0000,
    ;
    // the three coordinates
    let wx = u * (c.x - o.x) - t * d.x;
    let wy = u * (c.y - o.y) - t * d.y;
    let wz = u * (c.z - o.z) - t * d.z;
    let (px, py, pz) = (oc.x as int, oc.y as int, oc.z as int);
    let (dx, dy, dz) = (d.x as int, d.y as int, d.z as int);
    lemma_square_of_difference(u, px, t, dx);
    lemma_square_of_difference(u, py, t, dy);
    lemma_square_of_difference(u, pz, t, dz);
    let (sx, sy, sz) = (px * px, py * py, pz * pz);
    let (hx, hy, hz) = (dx * px, dy * py, dz * pz);
    let (ax, ay, az) = (dx * dx, dy * dy, dz * dz);
    let uu = u * u;
    let ut = 2 * u * t;
    let tt = t * t;
    assert(uu * (sx + sy + sz) == uu * sx + uu * sy + uu * sz) by (nonlinear_arith);
    assert(ut * (hx + hy + hz) == ut * hx + ut * hy + ut * hz) by (nonlinear_arith);
    assert((ax + ay + az) * tt == ax * tt + ay * tt + az * tt) by (nonlinear_arith);
    assert(u * u * cc == uu * (sx + sy + sz));
    assert(2 * u * t * h == ut * (hx + hy + hz));
    assert(a * t * t == (ax + ay + az) * tt) by (nonlinear_arith)
        requires
            a == ax + ay + az,
            tt == t * t,
    ;
    assert(wx * wx + wy * wy + wz * wz == u * u * cc - 2 * u * t * h + a * t * t);
    assert(wx * wx >= 0 && wy * wy >= 0 && wz * wz >= 0) by (nonlinear_arith);
    lemma_coordinate_within_span(o.x as int, d.x as int, c.x as int, t, wx);
    lemma_coordinate_within_span(o.y as int, d.y as int, c.y as int, t, wy);
    lemma_coordinate_within_span(o.z as int, d.z as int, c.z as int, t, wz);
}

/// One coordinate of the hit of a ray that is aimed at the centre of a
/// sphere from the distance `dist`, with the direction `d` on this axis:
/// the point at the parameter `dist − r` lies `r · d / UNIT` before the
/// centre, rounded down, and the normal there is the opposite of `d` to
/// within `(UNIT + r) / r` steps.
pub proof fn lemma_aimed_coordinate(o: int, c: int, d: int, dist: int, r: int)
    requires
        -COORD_MAX <= o <= COORD_MAX,
        -COORD_MAX <= c <= COORD_MAX,
        -UNIT <= d <= UNIT,
        0 < r <= COORD_MAX,
        UNIT * (c - o) == dist * d,
    ensures
        ({
            let out = saturate(saturate(o + fmul_spec(d, dist - r)) - c);
            let n = fdiv_spec(out, r);
            &&& -SPAN_MAX <= out <= SPAN_MAX
            &&& -UNIT < UNIT * out + r * d <= 0
            &&& n <= -d
            &&& -(UNIT + r) < r * (n + d) <= 0
        }),
{
    let u = UNIT as int;
    let t = dist - r;
    let w = u * (c - o) - t * d;
    assert(w == r * d) by (nonlinear_arith)
        requires
            w == u * (c - o) - t * d,
            u * (c - o) == dist * d,
            t == dist - r,
    ;
    lemma_product_bounded(r, d, COORD_MAX as int, u);
    lemma_product_bounded(w, w, COORD_MAX * u, COORD_MAX * u);
    assert((COORD_MAX * u) * (COORD_MAX * u) <= (u * 0x3fff_fffe) * (u * 0x3fff_fffe))
        by (nonlinear_arith)
        requires
            u == 100_000,
    ;
    lemma_coordinate_within_span(o, d, c, t, w);
    let out = saturate(saturate(o + fmul_spec(d, t)) - c);
    let f = (d * t) / u;
    lemma_floor_div_bounds(d * t, u);
    assert(d * t == t * d) by (nonlinear_arith);
    assert(f * u == u * f && (f + 1) * u == u * f + u) by (nonlinear_arith);
    assert(u * out == u * o + u * f - u * c) by (nonlinear_arith)
        requires
            out == o + f - c,
    ;
    assert(u * (c - o) == u * c - u * o) by (nonlinear_arith);
    assert(-u < u * out + r * d <= 0);
    // the normal
    lemma_floor_div_bounds(out * u, r);
    let n0 = (out * u) / r;
    assert(out * u == u * out) by (nonlinear_arith);
    assert(n0 * r == r * n0 && (n0 + 1) * r == r * n0 + r) by (nonlinear_arith);
    assert(r * (n0 + d) == r * n0 + r * d) by (nonlinear_arith);
    assert(n0 <= -d) by (nonlinear_arith)
        requires
            r * (n0 + d) <= 0,
            r > 0,
    ;
    assert(n0 + d > -(u + r)) by (nonlinear_arith)
        requires
            r * (n0 + d) > -(u + r),
            n0 + d <= 0,
            r > 0,
            u > 0,
    ;
}

/// The sum of the sizes of the components of a vector of unit length is
/// less than two units.
pub proof fn lemma_unit_components(x: int, y: int, z: int)
    requires
        x * x + y * y + z * z == UNIT * UNIT,
    ensures
        abs_spec(x) + abs_spec(y) + abs_spec(z) < 2 * UNIT,
        -UNIT <= x <= UNIT,
        -UNIT <= y <= UNIT,
        -UNIT <= z <= UNIT,
{
    let (p, q, r) = (abs_spec(x), abs_spec(y), abs_spec(z));
    assert(p * p == x * x && q * q == y * y && r * r == z * z) by (nonlinear_arith)
        requires
            p == x || p == -x,
            q == y || q == -y,
            r == z || r == -z,
    ;
    let (pq, qr, pr) = (p - q, q - r, p - r);
    assert(pq * pq >= 0 && qr * qr >= 0 && pr * pr >= 0) by (nonlinear_arith);
    assert((p + q + r) * (p + q + r) + pq * pq + qr * qr + pr * pr == 3 * (p * p + q * q + r * r))
        by (nonlinear_arith)
        requires
            pq == p - q,
            qr == q - r,
            pr == p - r,
    ;
    assert(p + q + r < 2 * UNIT) by (nonlinear_arith)
        requires
            (p + q + r) * (p + q + r) <= 3 * (UNIT * UNIT),
            p + q + r >= 0,
            UNIT == 100_000,
    ;
    assert(x * x >= 0 && y * y >= 0 && z * z >= 0) by (nonlinear_arith);
    lemma_within_radius(x, UNIT as int);
    lemma_within_radius(y, UNIT as int);
    lemma_within_radius(z, UNIT as int);
}

/// A ray that is aimed at the centre of a sphere at rest from the distance
/// `dist`, with a direction of exactly unit length, hits the sphere at the
/// parameter `dist − radius`, on the side of its origin: the hit is the
/// point of the ray at that parameter, the normal faces the ray, and it is
/// the opposite of the direction to within `(UNIT + radius) / radius`
/// steps on every axis.
pub proof fn lemma_aimed_hit(s: Sphere, o: Vec3, dir: Vec3, dist: int, time: i64, ray_t: Interval)
    requires
        s.wf(),
        !s.is_moving,
        o.within(COORD_MAX as int),
        0 <= time <= UNIT,
        dir.dot_spec(dir) == UNIT * UNIT,
        UNIT * (s.center1.x - o.x) == dist * dir.x,
        UNIT * (s.center1.y - o.y) == dist * dir.y,
        UNIT * (s.center1.z - o.z) == dist * dir.z,
        2 <= s.radius < dist,
        ray_t.tmin < dist - s.radius < ray_t.tmax,
    ensures
        ({
            let ray = Ray { a_origin: o, b_direction: dir, time };
            let found = s.found(ray, ray_t);
            &&& found.is_some()
            &&& found.unwrap().t == dist - s.radius
            &&& found.unwrap().point == ray.at_spec(dist - s.radius)
            &&& found.unwrap().front_face
            &&& found.unwrap().material == s.material
            &&& -(UNIT + s.radius) < s.radius * (found.unwrap().normal.x + dir.x) <= 0
            &&& -(UNIT + s.radius) < s.radius * (found.unwrap().normal.y + dir.y) <= 0
            &&& -(UNIT + s.radius) < s.radius * (found.unwrap().normal.z + dir.z) <= 0
        }),
{
    let u = UNIT as int;
    let r = s.radius as int;
    let c = s.center1;
    let ray = Ray { a_origin: o, b_direction: dir, time };
    let oc = c.difference_spec(o);
    let q = s.quadratic(ray);
    let t = dist - r;
    let (dx, dy, dz) = (dir.x as int, dir.y as int, dir.z as int);
    let (px, py, pz) = (oc.x as int, oc.y as int, oc.z as int);
    lemma_unit_components(dx, dy, dz);
    // the quadratic
    assert(u * (dx * px) == dist * (dx * dx)) by (nonlinear_arith)
        requires
            u * px == dist * dx,
    ;
    assert(u * (dy * py) == dist * (dy * dy)) by (nonlinear_arith)
        requires
            u * py == dist * dy,
    ;
    assert(u * (dz * pz) == dist * (dz * dz)) by (nonlinear_arith)
        requires
            u * pz == dist * dz,
    ;
    assert(u * q.h == dist * (u * u)) by (nonlinear_arith)
        requires
            q.h == dx * px + dy * py + dz * pz,
            u * (dx * px) == dist * (dx * dx),
            u * (dy * py) == dist * (dy * dy),
            u * (dz * pz) == dist * (dz * dz),
            dx * dx + dy * dy + dz * dz == u * u,
    ;
    assert(q.h == dist * u) by (nonlinear_arith)
        requires
            u * q.h == dist * (u * u),
            u > 0,
    ;
    assert(u * (px * px) == dist * (dx * px)) by (nonlinear_arith)
        requires
            u * px == dist * dx,
    ;
    assert(u * (py * py) == dist * (dy * py)) by (nonlinear_arith)
        requires
            u * py == dist * dy,
    ;
    assert(u * (pz * pz) == dist * (dz * pz)) by (nonlinear_arith)
        requires
            u * pz == dist * dz,
    ;
    let cc = px * px + py * py + pz * pz;
    assert(u * cc == dist * q.h) by (nonlinear_arith)
        requires
            cc == px * px + py * py + pz * pz,
            q.h == dx * px + dy * py + dz * pz,
            u * (px * px) == dist * (dx * px),
            u * (py * py) == dist * (dy * py),
            u * (pz * pz) == dist * (dz * pz),
    ;
    assert(cc == dist * dist) by (nonlinear_arith)
        requires
            u * cc == dist * q.h,
            q.h == dist * u,
            u > 0,
    ;
    assert(q.a == u * u && q.c == dist * dist - r * r);
    assert(q.discriminant() == (u * r) * (u * r)) by (nonlinear_arith)
        requires
            q.discriminant() == q.h * q.h - q.a * q.c,
            q.a == u * u,
            q.h == dist * u,
            q.c == dist * dist - r * r,
    ;
    assert(u * r >= 0) by (nonlinear_arith)
        requires
            u > 0,
            r > 0,
    ;
    assert(is_sqrt_floor(q.discriminant(), u * r)) by (nonlinear_arith)
        requires
            q.discriminant() == (u * r) * (u * r),
            u * r >= 0,
    ;
    let root = sqrt_floor(q.discriminant());
    lemma_sqrt_exists(q.discriminant());
    crate::scalar::lemma_sqrt_floor_unique(q.discriminant(), root, u * r);
    assert((q.h - root) * u == t * (u * u)) by (nonlinear_arith)
        requires
            q.h == dist * u,
            root == u * r,
            t == dist - r,
    ;
    lemma_exact_quotient(t, u * u);
    assert(q.near() == t);
    assert(q.root(ray_t) == Some(t));
    // the point and the normal, axis by axis
    lemma_aimed_coordinate(o.x as int, c.x as int, dx, dist, r);
    lemma_aimed_coordinate(o.y as int, c.y as int, dy, dist, r);
    lemma_aimed_coordinate(o.z as int, c.z as int, dz, dist, r);
    let point = ray.at_spec(t);
    let outward = point.difference_spec(c);
    let (kx, ky, kz) = (u * outward.x + r * dx, u * outward.y + r * dy, u * outward.z + r * dz);
    assert(kx * dx <= u * abs_spec(dx) && ky * dy <= u * abs_spec(dy) && kz * dz <= u * abs_spec(
        dz,
    )) by (nonlinear_arith)
        requires
            -u < kx <= 0,
            -u < ky <= 0,
            -u < kz <= 0,
            -u <= dx <= u,
            -u <= dy <= u,
            -u <= dz <= u,
    ;
    assert(u * (abs_spec(dx) + abs_spec(dy) + abs_spec(dz)) < 2 * (u * u)) by (nonlinear_arith)
        requires
            abs_spec(dx) + abs_spec(dy) + abs_spec(dz) < 2 * u,
            u > 0,
    ;
    assert(u * (outward.x * dx) == kx * dx - r * (dx * dx)) by (nonlinear_arith)
        requires
            kx == u * outward.x + r * dx,
    ;
    assert(u * (outward.y * dy) == ky * dy - r * (dy * dy)) by (nonlinear_arith)
        requires
            ky == u * outward.y + r * dy,
    ;
    assert(u * (outward.z * dz) == kz * dz - r * (dz * dz)) by (nonlinear_arith)
        requires
            kz == u * outward.z + r * dz,
    ;
    let (ox, oy, oz) = (outward.x * dx, outward.y * dy, outward.z * dz);
    assert(u * (ox + oy + oz) == u * ox + u * oy + u * oz) by (nonlinear_arith);
    assert(r * (dx * dx + dy * dy + dz * dz) == r * (dx * dx) + r * (dy * dy) + r * (dz * dz))
        by (nonlinear_arith);
    assert(u * outward.dot_spec(dir) == kx * dx + ky * dy + kz * dz - r * (u * u));
    assert(r * (u * u) >= 2 * (u * u)) by (nonlinear_arith)
        requires
            r >= 2,
            u > 0,
    ;
    assert(outward.dot_spec(dir) < 0) by (nonlinear_arith)
        requires
            u * outward.dot_spec(dir) < 0,
            u > 0,
    ;
}

/// A number whose square is no larger than the square of a radius is no
/// larger than the radius.
pub proof fn lemma_within_radius(d: int, r: int)
    by (nonlinear_arith)
    requires
        d * d <= r * r,
        r >= 0,
    ensures
        -r <= d <= r,
{
}

} // verus!
