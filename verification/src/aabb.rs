//! Axis-aligned bounding boxes and the slab test of a ray against one.

use vstd::prelude::*;
use vstd::std_specs::ops::AddSpecImpl;
use crate::interval::Interval;
use crate::ray::Ray;
use crate::scalar::{
    ceil_div, ceil_div_spec, floor_div, floor_div_spec, max_spec, min_spec, saturate, saturating,
    UNIT,
};
use crate::utils::{fmax, fmin};
use crate::vec3::Vec3;

verus! {

/// The least width that an axis of a constructed box may have.
pub const PAD_DELTA: i64 = 10;

/// A box, as one range on each axis.
#[derive(Clone, Copy, Debug, PartialEq, Eq, Structural)]
pub struct Aabb {
    pub x: Interval,
    pub y: Interval,
    pub z: Interval,
}

/// A range narrower than `PAD_DELTA` is widened by `PAD_DELTA`, half on each
/// side; any other is kept.
pub open spec fn pad_axis(i: Interval) -> Interval {
    if i.size_spec() < PAD_DELTA {
        i.expand_spec(PAD_DELTA as int)
    } else {
        i
    }
}

/// The range of ray parameters for which a ray that moves on one axis from
/// `o` by `d` per unit of parameter lies inside `[axis.tmin, axis.tmax]`,
/// rounded outwards to the grid. A ray that does not move on the axis is
/// inside for every parameter or for none.
pub open spec fn slab(axis: Interval, o: int, d: int) -> Interval {
    if d == 0 {
        if axis.tmin <= o <= axis.tmax {
            Interval::universe_spec()
        } else {
            Interval::empty_spec()
        }
    } else {
        Interval {
            tmin: saturate(
                min_spec(
                    floor_div_spec((axis.tmin - o) * UNIT, d),
                    floor_div_spec((axis.tmax - o) * UNIT, d),
                ),
            ) as i64,
            tmax: saturate(
                max_spec(
                    ceil_div_spec((axis.tmin - o) * UNIT, d),
                    ceil_div_spec((axis.tmax - o) * UNIT, d),
                ),
            ) as i64,
        }
    }
}

/// What is left of `ray_t` after `a`, `b` and `c` were cut from it in that
/// order, or nothing once one cut has left nothing strictly inside.
pub open spec fn clip3(ray_t: Interval, a: Interval, b: Interval, c: Interval) -> Option<Interval> {
    let first = Interval::overlap_spec(ray_t, a);
    let second = Interval::overlap_spec(first, b);
    let third = Interval::overlap_spec(second, c);
    if collapsed(first) || collapsed(second) || collapsed(third) {
        None
    } else {
        Some(third)
    }
}

/// The order of the cuts does not matter.
pub proof fn lemma_clip3_symmetric(ray_t: Interval, a: Interval, b: Interval, c: Interval)
    ensures
        clip3(ray_t, a, b, c) == clip3(ray_t, b, a, c),
        clip3(ray_t, a, b, c) == clip3(ray_t, a, c, b),
{
}

/// A range of ray parameters with nothing strictly inside it.
pub open spec fn collapsed(i: Interval) -> bool {
    i.tmax <= i.tmin
}

impl Aabb {
    pub open spec fn axis_spec(&self, n: int) -> Interval {
        if n == 0 {
            self.x
        } else if n == 1 {
            self.y
        } else {
            self.z
        }
    }

    pub open spec fn padded_spec(&self) -> Aabb {
        Aabb { x: pad_axis(self.x), y: pad_axis(self.y), z: pad_axis(self.z) }
    }

    /// No axis is narrower than `PAD_DELTA`.
    pub open spec fn is_padded(&self) -> bool {
        &&& self.x.size_spec() >= PAD_DELTA
        &&& self.y.size_spec() >= PAD_DELTA
        &&& self.z.size_spec() >= PAD_DELTA
    }

    /// Every axis holds a finite scalar.
    pub open spec fn is_solid(&self) -> bool {
        self.x.is_solid() && self.y.is_solid() && self.z.is_solid()
    }

    /// The box holds nothing at all, or it is padded and holds a finite
    /// scalar on every axis. Every box that is built from finite points is
    /// regular, and so is every union of regular boxes.
    pub open spec fn is_regular(&self) -> bool {
        *self == Self::empty_spec() || (self.is_padded() && self.is_solid())
    }

    pub open spec fn empty_spec() -> Aabb {
        Aabb { x: Interval::empty_spec(), y: Interval::empty_spec(), z: Interval::empty_spec() }
    }

    /// The smallest box that holds both, before any padding.
    pub open spec fn union_spec(a: Aabb, b: Aabb) -> Aabb {
        Aabb {
            x: Interval::union_spec(a.x, b.x),
            y: Interval::union_spec(a.y, b.y),
            z: Interval::union_spec(a.z, b.z),
        }
    }

    /// `other` lies inside this box.
    pub open spec fn contains_box(&self, other: Aabb) -> bool {
        &&& self.x.tmin <= other.x.tmin && other.x.tmax <= self.x.tmax
        &&& self.y.tmin <= other.y.tmin && other.y.tmax <= self.y.tmax
        &&& self.z.tmin <= other.z.tmin && other.z.tmax <= self.z.tmax
    }

    pub open spec fn from_points_spec(a: Vec3, b: Vec3) -> Aabb {
        Aabb {
            x: Interval {
                tmin: min_spec(a.x as int, b.x as int) as i64,
                tmax: max_spec(a.x as int, b.x as int) as i64,
            },
            y: Interval {
                tmin: min_spec(a.y as int, b.y as int) as i64,
                tmax: max_spec(a.y as int, b.y as int) as i64,
            },
            z: Interval {
                tmin: min_spec(a.z as int, b.z as int) as i64,
                tmax: max_spec(a.z as int, b.z as int) as i64,
            },
        }.padded_spec()
    }

    pub open spec fn translated_spec(&self, offset: Vec3) -> Aabb {
        Aabb {
            x: self.x.shift_spec(offset.x as int),
            y: self.y.shift_spec(offset.y as int),
            z: self.z.shift_spec(offset.z as int),
        }.padded_spec()
    }

    /// The axis of largest width: x only where it is wider than both others,
    /// y where it is wider than z and x is not wider than y, else z.
    pub open spec fn longest_axis_spec(&self) -> int {
        if self.x.size_spec() > self.y.size_spec() {
            if self.x.size_spec() > self.z.size_spec() {
                0
            } else {
                2
            }
        } else {
            if self.y.size_spec() > self.z.size_spec() {
                1
            } else {
                2
            }
        }
    }

    /// The slab of the box on axis `n` for the ray `r`.
    pub open spec fn slab_on(&self, r: Ray, n: int) -> Interval {
        slab(self.axis_spec(n), r.a_origin.lp_spec(n) as int, r.b_direction.lp_spec(n) as int)
    }

    /// The parameters left of `ray_t` after the slabs of the axes `i`, `j`
    /// and `k` were cut from it in that order, or nothing once one cut has
    /// left nothing strictly inside.
    pub open spec fn clipped(&self, r: Ray, ray_t: Interval, i: int, j: int, k: int) -> Option<
        Interval,
    > {
        clip3(ray_t, self.slab_on(r, i), self.slab_on(r, j), self.slab_on(r, k))
    }

    /// The ray may pass through the box at a parameter strictly inside
    /// `ray_t`.
    pub open spec fn hit_spec(&self, r: Ray, ray_t: Interval) -> bool {
        self.clipped(r, ray_t, 0, 1, 2).is_some()
    }

    /// The box of three ranges, each widened where it is too narrow.
    pub fn new(x: Interval, y: Interval, z: Interval) -> (r: Aabb)
        ensures
            r == (Aabb { x, y, z }).padded_spec(),
            x.is_solid() && y.is_solid() && z.is_solid() ==> r.is_padded() && r.is_solid(),
            r.contains_box(Aabb { x, y, z }),
    {
        let mut b = Aabb { x, y, z };
        proof {
            lemma_pad_axis(x);
            lemma_pad_axis(y);
            lemma_pad_axis(z);
        }
        b.pad_to_minimums()
    }

    /// The box that holds nothing. It is the one box that is not padded.
    pub fn default() -> (r: Aabb)
        ensures
            r == Self::empty_spec(),
    {
        Aabb { x: Interval::default(), y: Interval::default(), z: Interval::default() }
    }

    /// The box that holds everything.
    pub fn universe() -> (r: Aabb)
        ensures
            r == (Aabb {
                x: Interval::universe_spec(),
                y: Interval::universe_spec(),
                z: Interval::universe_spec(),
            }),
    {
        Aabb { x: Interval::universe(), y: Interval::universe(), z: Interval::universe() }
    }

    /// The box with the two points as opposite corners.
    pub fn new_from_point(a: Vec3, b: Vec3) -> (r: Aabb)
        ensures
            r == Self::from_points_spec(a, b),
            a.is_finite() && b.is_finite() ==> r.is_padded() && r.is_solid(),
    {
        let x = Interval::new(fmin(a.x, b.x), fmax(a.x, b.x));
        let y = Interval::new(fmin(a.y, b.y), fmax(a.y, b.y));
        let z = Interval::new(fmin(a.z, b.z), fmax(a.z, b.z));
        proof {
            lemma_pad_axis(x);
            lemma_pad_axis(y);
            lemma_pad_axis(z);
        }
        Aabb::new(x, y, z)
    }

    /// The smallest box that holds both boxes, padded.
    pub fn new_from_bbox(a: Aabb, b: Aabb) -> (r: Aabb)
        ensures
            r == Self::union_spec(a, b).padded_spec(),
            r.contains_box(a),
            r.contains_box(b),
            a.is_solid() || b.is_solid() ==> r.is_solid() && r.is_padded(),
            a.is_padded() && a.is_solid() && b == Self::empty_spec() ==> r == a,
            a.is_padded() && b.is_padded() && a.is_solid() && b.is_solid() ==> r == Self::union_spec(
                a,
                b,
            ),
    {
        proof {
            lemma_pad_axis(Interval::union_spec(a.x, b.x));
            lemma_pad_axis(Interval::union_spec(a.y, b.y));
            lemma_pad_axis(Interval::union_spec(a.z, b.z));
        }
        Aabb::new(
            Interval::new_union(a.x, b.x),
            Interval::new_union(a.y, b.y),
            Interval::new_union(a.z, b.z),
        )
    }

    /// The range of the box on axis `n`: 0 for x, 1 for y, 2 for z.
    pub fn axis_interval(&self, n: usize) -> (r: &Interval)
        requires
            n <= 2,
        ensures
            *r == self.axis_spec(n as int),
    {
        if n == 0 {
            &self.x
        } else if n == 1 {
            &self.y
        } else {
            &self.z
        }
    }

    pub fn longest_axis(&self) -> (r: usize)
        ensures
            r == self.longest_axis_spec(),
            r <= 2,
            self.axis_spec(r as int).size_spec() >= self.x.size_spec(),
            self.axis_spec(r as int).size_spec() >= self.y.size_spec(),
            self.axis_spec(r as int).size_spec() >= self.z.size_spec(),
    {
        if self.x.size() > self.y.size() {
            if self.x.size() > self.z.size() {
                0
            } else {
                2
            }
        } else {
            if self.y.size() > self.z.size() {
                1
            } else {
                2
            }
        }
    }

    /// The slab test: whether the ray can be inside the box at a parameter
    /// strictly inside `ray_t`. The test stops at the first axis that leaves
    /// nothing.
    pub fn hit(&self, r: &Ray, ray_t: Interval) -> (b: bool)
        ensures
            b == self.hit_spec(*r, ray_t),
    {
        let mut running: Interval = ray_t;
        let mut i: usize = 0;
        while i < 3
            invariant
                i <= 3,
                i == 0 ==> running == ray_t,
                i == 1 ==> running == Interval::overlap_spec(ray_t, self.slab_on(*r, 0))
                    && !collapsed(running),
                i == 2 ==> {
                    let a = Interval::overlap_spec(ray_t, self.slab_on(*r, 0));
                    running == Interval::overlap_spec(a, self.slab_on(*r, 1)) && !collapsed(a)
                        && !collapsed(running)
                },
                i == 3 ==> self.hit_spec(*r, ray_t),
            decreases 3 - i,
        {
            let s: Interval = slab_of(
                *self.axis_interval(i),
                r.a_origin.lp(i as u8),
                r.b_direction.lp(i as u8),
            );
            running = Interval::new_overlap(running, s);
            if running.tmax <= running.tmin {
                return false;
            }
            i = i + 1;
        }
        true
    }

    /// Widens every axis that is narrower than `PAD_DELTA`.
    pub fn pad_to_minimums(&mut self) -> (r: Self)
        ensures
            *final(self) == old(self).padded_spec(),
            r == *final(self),
    {
        let delta: i64 = PAD_DELTA;
        if self.x.size() < delta {
            self.x = self.x.expand(delta);
        }
        if self.y.size() < delta {
            self.y = self.y.expand(delta);
        }
        if self.z.size() < delta {
            self.z = self.z.expand(delta);
        }
        *self
    }
}

/// Computes [`slab`].
pub fn slab_of(axis: Interval, o: i64, d: i64) -> (s: Interval)
    ensures
        s == slab(axis, o as int, d as int),
{
    if d == 0 {
        if axis.tmin <= o && o <= axis.tmax {
            Interval::universe()
        } else {
            Interval::default()
        }
    } else {
        let unit: i128 = UNIT as i128;
        assert(unit == 100_000);
        let n0: i128 = (axis.tmin as i128 - o as i128) * unit;
        let n1: i128 = (axis.tmax as i128 - o as i128) * unit;
        let f0: i128 = floor_div(n0, d as i128);
        let f1: i128 = floor_div(n1, d as i128);
        let c0: i128 = ceil_div(n0, d as i128);
        let c1: i128 = ceil_div(n1, d as i128);
        let near: i128 = if f0 > f1 {
            f1
        } else {
            f0
        };
        let far: i128 = if c0 > c1 {
            c0
        } else {
            c1
        };
        Interval { tmin: saturating(near), tmax: saturating(far) }
    }
}

/// Padding never shrinks a range, leaves a wide one alone, and makes every
/// range that holds a finite scalar at least `PAD_DELTA` wide.
pub proof fn lemma_pad_axis(i: Interval)
    ensures
        pad_axis(i).tmin <= i.tmin,
        i.tmax <= pad_axis(i).tmax,
        i.size_spec() >= PAD_DELTA ==> pad_axis(i) == i,
        i.is_solid() ==> pad_axis(i).is_solid() && pad_axis(i).size_spec() >= PAD_DELTA,
{
}

/// The union of two regular boxes is regular as it stands: padding leaves it
/// alone.
pub proof fn lemma_regular_union(a: Aabb, b: Aabb)
    requires
        a.is_regular(),
        b.is_regular(),
    ensures
        Aabb::union_spec(a, b).padded_spec() == Aabb::union_spec(a, b),
        Aabb::union_spec(a, b).is_regular(),
{
    lemma_pad_axis(Interval::union_spec(a.x, b.x));
    lemma_pad_axis(Interval::union_spec(a.y, b.y));
    lemma_pad_axis(Interval::union_spec(a.z, b.z));
}

/// The slab test does not depend on the order in which the axes are taken:
/// whichever axis comes first, second and third, the same parameters are
/// left, or none.
pub proof fn lemma_hit_order_independent(b: Aabb, r: Ray, ray_t: Interval, i: int, j: int, k: int)
    requires
        0 <= i <= 2,
        0 <= j <= 2,
        0 <= k <= 2,
        i != j,
        j != k,
        i != k,
    ensures
        b.clipped(r, ray_t, i, j, k) == b.clipped(r, ray_t, 0, 1, 2),
        b.clipped(r, ray_t, i, j, k).is_some() == b.hit_spec(r, ray_t),
{
    let s0 = b.slab_on(r, 0);
    let s1 = b.slab_on(r, 1);
    let s2 = b.slab_on(r, 2);
    lemma_clip3_symmetric(ray_t, s0, s1, s2);
    lemma_clip3_symmetric(ray_t, s1, s0, s2);
    lemma_clip3_symmetric(ray_t, s0, s2, s1);
    lemma_clip3_symmetric(ray_t, s2, s0, s1);
    lemma_clip3_symmetric(ray_t, s1, s2, s0);
}

/// Once the slab of a single axis leaves nothing of `ray_t`, the box is
/// missed, whatever the other axes say.
pub proof fn lemma_axis_miss_is_final(b: Aabb, r: Ray, ray_t: Interval, n: int)
    requires
        0 <= n <= 2,
        collapsed(Interval::overlap_spec(ray_t, b.slab_on(r, n))),
    ensures
        !b.hit_spec(r, ray_t),
{
}

/// A box that is hit leaves a range of parameters inside `ray_t`: the test
/// only ever narrows the range it was given.
pub proof fn lemma_hit_narrows(b: Aabb, r: Ray, ray_t: Interval)
    requires
        b.hit_spec(r, ray_t),
    ensures
        ray_t.tmin <= b.clipped(r, ray_t, 0, 1, 2).unwrap().tmin,
        b.clipped(r, ray_t, 0, 1, 2).unwrap().tmax <= ray_t.tmax,
        ray_t.tmin < ray_t.tmax,
{
}

/// On one axis, the ray is between `axis.tmin` and `axis.tmax` at the
/// parameter `t`, by its exact position before any rounding.
pub open spec fn between(axis: Interval, o: int, d: int, t: int) -> bool {
    axis.tmin * UNIT <= o * UNIT + d * t <= axis.tmax * UNIT
}

/// The ray is inside the box at the parameter `t`, by its exact position
/// before any rounding.
pub open spec fn inside_at(b: Aabb, r: Ray, t: int) -> bool {
    &&& between(b.x, r.a_origin.x as int, r.b_direction.x as int, t)
    &&& between(b.y, r.a_origin.y as int, r.b_direction.y as int, t)
    &&& between(b.z, r.a_origin.z as int, r.b_direction.z as int, t)
}

/// The slab of an axis holds every parameter at which the ray is between
/// the bounds of the axis.
pub proof fn lemma_slab_holds(axis: Interval, o: int, d: int, t: int)
    requires
        between(axis, o, d, t),
        crate::scalar::NEG_INFINITY <= t <= crate::scalar::INFINITY,
    ensures
        slab(axis, o, d).tmin <= t <= slab(axis, o, d).tmax,
{
    let u = UNIT as int;
    let lo = (axis.tmin - o) * u;
    let hi = (axis.tmax - o) * u;
    assert(lo <= d * t <= hi) by (nonlinear_arith)
        requires
            axis.tmin * u <= o * u + d * t <= axis.tmax * u,
            lo == (axis.tmin - o) * u,
            hi == (axis.tmax - o) * u,
    ;
    if d > 0 {
        crate::scalar::lemma_floor_div_bounds(lo, d);
        crate::scalar::lemma_floor_div_bounds(-hi, d);
        let f = floor_div_spec(lo, d);
        let g = floor_div_spec(-hi, d);
        assert(f <= t) by (nonlinear_arith)
            requires
                f * d <= lo,
                lo <= d * t,
                d > 0,
        ;
        assert(-g >= t) by (nonlinear_arith)
            requires
                g * d <= -hi,
                d * t <= hi,
                d > 0,
        ;
    } else if d < 0 {
        crate::scalar::lemma_floor_div_bounds(-hi, -d);
        crate::scalar::lemma_floor_div_bounds(lo, -d);
        let f = floor_div_spec(hi, d);
        let g = floor_div_spec(-lo, d);
        assert(f == (-hi) / (-d));
        assert(g == lo / (-d));
        assert(f <= t) by (nonlinear_arith)
            requires
                f * (-d) <= -hi,
                d * t <= hi,
                d < 0,
        ;
        assert(-g >= t) by (nonlinear_arith)
            requires
                g * (-d) <= lo,
                lo <= d * t,
                d < 0,
        ;
    } else {
        assert(d * t == 0) by (nonlinear_arith)
            requires
                d == 0,
        ;
        assert(axis.tmin <= o <= axis.tmax) by (nonlinear_arith)
            requires
                axis.tmin * u <= o * u <= axis.tmax * u,
                u > 0,
        ;
    }
}

/// The slab test never misses a box that the ray passes through: a ray
/// that is inside the box at two parameters strictly inside `ray_t`, by its
/// exact positions, hits the box.
pub proof fn lemma_slab_test_is_conservative(b: Aabb, r: Ray, ray_t: Interval, t1: i64, t2: i64)
    requires
        ray_t.tmin < t1 < t2 < ray_t.tmax,
        inside_at(b, r, t1 as int),
        inside_at(b, r, t2 as int),
    ensures
        b.hit_spec(r, ray_t),
{
    lemma_slab_holds(b.x, r.a_origin.x as int, r.b_direction.x as int, t1 as int);
    lemma_slab_holds(b.y, r.a_origin.y as int, r.b_direction.y as int, t1 as int);
    lemma_slab_holds(b.z, r.a_origin.z as int, r.b_direction.z as int, t1 as int);
    lemma_slab_holds(b.x, r.a_origin.x as int, r.b_direction.x as int, t2 as int);
    lemma_slab_holds(b.y, r.a_origin.y as int, r.b_direction.y as int, t2 as int);
    lemma_slab_holds(b.z, r.a_origin.z as int, r.b_direction.z as int, t2 as int);
}

/// `box + offset` moves the box and pads the result.
impl core::ops::Add<Vec3> for Aabb {
    type Output = Aabb;

    fn add(self, offset: Vec3) -> (r: Aabb) {
        Aabb::new(self.x.shift(offset.x), self.y.shift(offset.y), self.z.shift(offset.z))
    }
}

impl AddSpecImpl<Vec3> for Aabb {
    open spec fn obeys_add_spec() -> bool {
        true
    }

    open spec fn add_req(self, offset: Vec3) -> bool {
        true
    }

    open spec fn add_spec(self, offset: Vec3) -> Aabb {
        self.translated_spec(offset)
    }
}

/// `offset + box` is `box + offset`.
impl core::ops::Add<Aabb> for Vec3 {
    type Output = Aabb;

    fn add(self, bbox: Aabb) -> (r: Aabb) {
        bbox + self
    }
}

impl AddSpecImpl<Aabb> for Vec3 {
    open spec fn obeys_add_spec() -> bool {
        true
    }

    open spec fn add_req(self, bbox: Aabb) -> bool {
        true
    }

    open spec fn add_spec(self, bbox: Aabb) -> Aabb {
        bbox.translated_spec(self)
    }
}

} // verus!
