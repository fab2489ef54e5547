//! Rays: a point that moves along a direction, at a moment in time.

use vstd::prelude::*;
use crate::scalar::{COORD_MAX, SPAN_MAX, UNIT};
use crate::vec3::Vec3;

verus! {

/// The points `origin + direction · t`. The parameter `t` is a fixed-point
/// scalar; `time`, between 0 and one unit, places moving shapes.
#[derive(Clone, Copy, Debug, PartialEq, Eq, Structural)]
pub struct Ray {
    pub a_origin: Vec3,
    pub b_direction: Vec3,
    pub time: i64,
}

impl Ray {
    /// The ray starts at a point of the scene, its direction is a span, and
    /// its time lies between 0 and one unit.
    pub open spec fn in_range(&self) -> bool {
        &&& self.a_origin.within(COORD_MAX as int)
        &&& self.b_direction.within(SPAN_MAX as int)
        &&& 0 <= self.time <= UNIT
    }

    pub open spec fn at_spec(&self, t: int) -> Vec3 {
        self.a_origin.sum_spec(self.b_direction.scale_spec(t))
    }

    pub fn new(a_origin: Vec3, b_direction: Vec3, time: i64) -> (r: Self)
        ensures
            r.a_origin == a_origin,
            r.b_direction == b_direction,
            r.time == time,
    {
        Self { a_origin, b_direction, time }
    }

    pub fn default() -> (r: Self)
        ensures
            r.a_origin == (Vec3 { x: 0, y: 0, z: 0 }),
            r.b_direction == (Vec3 { x: 0, y: 0, z: 0 }),
            r.time == 0,
    {
        Self { a_origin: Vec3::zero(), b_direction: Vec3::zero(), time: 0 }
    }

    pub fn origin(&self) -> (r: Vec3)
        ensures
            r == self.a_origin,
    {
        self.a_origin
    }

    pub fn direction(&self) -> (r: Vec3)
        ensures
            r == self.b_direction,
    {
        self.b_direction
    }

    pub fn time(&self) -> (r: i64)
        ensures
            r == self.time,
    {
        self.time
    }

    /// The point of the ray at parameter `t`.
    pub fn at(&self, t: i64) -> (r: Vec3)
        ensures
            r == self.at_spec(t as int),
    {
        self.a_origin + self.b_direction * t
    }

    /// Whether the ray lies within the range that shapes accept.
    pub fn is_in_range(&self) -> (r: bool)
        ensures
            r == self.in_range(),
    {
        let o: Vec3 = self.a_origin;
        let d: Vec3 = self.b_direction;
        -COORD_MAX <= o.x && o.x <= COORD_MAX && -COORD_MAX <= o.y && o.y <= COORD_MAX
            && -COORD_MAX <= o.z && o.z <= COORD_MAX && -SPAN_MAX <= d.x && d.x <= SPAN_MAX
            && -SPAN_MAX <= d.y && d.y <= SPAN_MAX && -SPAN_MAX <= d.z && d.z <= SPAN_MAX
            && 0 <= self.time && self.time <= UNIT
    }
}

} // verus!
