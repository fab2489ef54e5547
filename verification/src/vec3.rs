//! Three-component vectors of scalars.
//!
//! Sums and differences saturate component by component. Products of two
//! vectors are exact integers, in squared grid steps; products with a
//! fixed-point factor are rounded down to the grid.

use vstd::prelude::*;
use vstd::std_specs::ops::{AddSpecImpl, DivSpecImpl, MulSpecImpl, SubSpecImpl};
use crate::scalar::{
    fdiv, fdiv_spec, fmul, fmul_spec, is_infinite, is_sqrt_floor, isqrt, lemma_product_bounded,
    max_spec, min_spec, sat_add, sat_sub, saturate, SPAN_MAX, sqrt_floor, UNIT, wide_mul,
};
use crate::utils::{fmax, fmin};

verus! {

/// Largest magnitude of a component for which `*` between two vectors and
/// `squared_length` are defined.
pub const DOT_MAX: i64 = 0x4000_0000_0000_0000;

#[derive(Clone, Copy, Debug, PartialEq, Eq, Structural)]
pub struct Vec3 {
    pub x: i64,
    pub y: i64,
    pub z: i64,
}

impl Vec3 {
    /// No component is larger than `m` in magnitude.
    pub open spec fn within(self, m: int) -> bool {
        &&& -m <= self.x <= m
        &&& -m <= self.y <= m
        &&& -m <= self.z <= m
    }

    /// No component is infinite.
    pub open spec fn is_finite(self) -> bool {
        &&& !is_infinite(self.x as int)
        &&& !is_infinite(self.y as int)
        &&& !is_infinite(self.z as int)
    }

    pub open spec fn sum_spec(self, other: Vec3) -> Vec3 {
        Vec3 {
            x: saturate(self.x + other.x) as i64,
            y: saturate(self.y + other.y) as i64,
            z: saturate(self.z + other.z) as i64,
        }
    }

    pub open spec fn difference_spec(self, other: Vec3) -> Vec3 {
        Vec3 {
            x: saturate(self.x - other.x) as i64,
            y: saturate(self.y - other.y) as i64,
            z: saturate(self.z - other.z) as i64,
        }
    }

    /// The scalar product, an exact integer.
    pub open spec fn dot_spec(self, other: Vec3) -> int {
        self.x * other.x + self.y * other.y + self.z * other.z
    }

    /// The vector product, component by component an exact integer.
    pub open spec fn cross_x(self, other: Vec3) -> int {
        self.y * other.z - self.z * other.y
    }

    pub open spec fn cross_y(self, other: Vec3) -> int {
        self.z * other.x - self.x * other.z
    }

    pub open spec fn cross_z(self, other: Vec3) -> int {
        self.x * other.y - self.y * other.x
    }

    pub open spec fn cross_spec(self, other: Vec3) -> Vec3 {
        Vec3 {
            x: self.cross_x(other) as i64,
            y: self.cross_y(other) as i64,
            z: self.cross_z(other) as i64,
        }
    }

    /// The vector scaled by the fixed-point factor `k`.
    pub open spec fn scale_spec(self, k: int) -> Vec3 {
        Vec3 {
            x: fmul_spec(self.x as int, k) as i64,
            y: fmul_spec(self.y as int, k) as i64,
            z: fmul_spec(self.z as int, k) as i64,
        }
    }

    /// The vector divided by the fixed-point divisor `k`.
    pub open spec fn quotient_spec(self, k: int) -> Vec3 {
        Vec3 {
            x: fdiv_spec(self.x as int, k) as i64,
            y: fdiv_spec(self.y as int, k) as i64,
            z: fdiv_spec(self.z as int, k) as i64,
        }
    }

    pub open spec fn lp_spec(self, index: int) -> i64 {
        if index == 0 {
            self.x
        } else if index == 1 {
            self.y
        } else {
            self.z
        }
    }

    pub fn x(&self) -> (r: i64)
        ensures
            r == self.x,
    {
        self.x
    }

    pub fn y(&self) -> (r: i64)
        ensures
            r == self.y,
    {
        self.y
    }

    pub fn z(&self) -> (r: i64)
        ensures
            r == self.z,
    {
        self.z
    }

    /// The component on axis `index`: 0 for x, 1 for y, anything else for z.
    pub fn lp(&self, index: u8) -> (r: i64)
        ensures
            r == self.lp_spec(index as int),
    {
        if index == 0 {
            self.x
        } else if index == 1 {
            self.y
        } else {
            self.z
        }
    }

    pub fn new(x: i64, y: i64, z: i64) -> (r: Self)
        ensures
            r.x == x,
            r.y == y,
            r.z == z,
    {
        Self { x, y, z }
    }

    /// The component-wise smaller of two vectors.
    pub fn merge_min(v1: &Vec3, v2: &Vec3) -> (r: Self)
        ensures
            r.x == min_spec(v1.x as int, v2.x as int),
            r.y == min_spec(v1.y as int, v2.y as int),
            r.z == min_spec(v1.z as int, v2.z as int),
    {
        Self { x: fmin(v1.x, v2.x), y: fmin(v1.y, v2.y), z: fmin(v1.z, v2.z) }
    }

    /// The component-wise larger of two vectors.
    pub fn merge_max(v1: &Vec3, v2: &Vec3) -> (r: Self)
        ensures
            r.x == max_spec(v1.x as int, v2.x as int),
            r.y == max_spec(v1.y as int, v2.y as int),
            r.z == max_spec(v1.z as int, v2.z as int),
    {
        Self { x: fmax(v1.x, v2.x), y: fmax(v1.y, v2.y), z: fmax(v1.z, v2.z) }
    }

    /// One unit of length on every axis.
    pub fn ones() -> (r: Self)
        ensures
            r == (Vec3 { x: UNIT, y: UNIT, z: UNIT }),
    {
        Self::new(UNIT, UNIT, UNIT)
    }

    pub fn zero() -> (r: Self)
        ensures
            r == (Vec3 { x: 0, y: 0, z: 0 }),
    {
        Self::new(0, 0, 0)
    }

    /// Every component is closer to zero than one grid step, which on the
    /// grid means that it is zero.
    pub fn near_zero(&self) -> (r: bool)
        ensures
            r == (self.x == 0 && self.y == 0 && self.z == 0),
    {
        self.x == 0 && self.y == 0 && self.z == 0
    }

    /// Whether no component is larger than `m` in magnitude.
    pub fn is_within(&self, m: i64) -> (r: bool)
        requires
            m >= 0,
        ensures
            r == self.within(m as int),
    {
        -m <= self.x && self.x <= m && -m <= self.y && self.y <= m && -m <= self.z && self.z <= m
    }

    pub fn squared_length(&self) -> (r: i128)
        requires
            self.within(DOT_MAX as int),
        ensures
            r == self.dot_spec(*self),
            r >= 0,
    {
        let v: Vec3 = *self;
        proof {
            assert(self.x * self.x >= 0 && self.y * self.y >= 0 && self.z * self.z >= 0)
                by (nonlinear_arith);
        }
        v * v
    }

    /// The Euclidean length, rounded down to the grid.
    pub fn length(&self) -> (r: i64)
        requires
            self.within(DOT_MAX as int),
        ensures
            r == sqrt_floor(self.dot_spec(*self)),
            is_sqrt_floor(self.dot_spec(*self), r as int),
            r >= 0,
    {
        let sq: i128 = self.squared_length();
        let root: u64 = isqrt(sq as u128);
        proof {
            lemma_product_bounded(self.x as int, self.x as int, DOT_MAX as int, DOT_MAX as int);
            lemma_product_bounded(self.y as int, self.y as int, DOT_MAX as int, DOT_MAX as int);
            lemma_product_bounded(self.z as int, self.z as int, DOT_MAX as int, DOT_MAX as int);
            assert(DOT_MAX * DOT_MAX == 0x1000_0000_0000_0000_0000_0000_0000_0000int)
                by (nonlinear_arith);
            assert(root < 0x7fff_ffff_ffff_ffff) by (nonlinear_arith)
                requires
                    root * root <= sq,
                    sq <= 3 * 0x1000_0000_0000_0000_0000_0000_0000_0000int,
                    root >= 0,
            ;
        }
        root as i64
    }

    /// The vector product of two spans, exact.
    pub fn cross(&self, other: Vec3) -> (r: Self)
        requires
            self.within(SPAN_MAX as int),
            other.within(SPAN_MAX as int),
        ensures
            r == self.cross_spec(other),
            r.x == self.cross_x(other),
            r.y == self.cross_y(other),
            r.z == self.cross_z(other),
            r.within(2 * SPAN_MAX * SPAN_MAX),
    {
        proof {
            let m = SPAN_MAX as int;
            lemma_product_bounded(self.y as int, other.z as int, m, m);
            lemma_product_bounded(self.z as int, other.y as int, m, m);
            lemma_product_bounded(self.z as int, other.x as int, m, m);
            lemma_product_bounded(self.x as int, other.z as int, m, m);
            lemma_product_bounded(self.x as int, other.y as int, m, m);
            lemma_product_bounded(self.y as int, other.x as int, m, m);
            assert(m * m == 0x1000_0000_0000_0000) by (nonlinear_arith)
                requires
                    m == 0x4000_0000,
            ;
        }
        let x: i64 = self.y * other.z - self.z * other.y;
        let y: i64 = self.z * other.x - self.x * other.z;
        let z: i64 = self.x * other.y - self.y * other.x;
        Vec3 { x, y, z }
    }

    /// Adds `other` to the vector in place, each component saturating.
    pub fn add_assign(&mut self, other: Vec3)
        ensures
            *final(self) == old(self).sum_spec(other),
    {
        *self = Vec3 {
            x: sat_add(self.x, other.x),
            y: sat_add(self.y, other.y),
            z: sat_add(self.z, other.z),
        };
    }
}

impl core::ops::Add for Vec3 {
    type Output = Vec3;

    fn add(self, other: Vec3) -> (r: Vec3) {
        Vec3 {
            x: sat_add(self.x, other.x),
            y: sat_add(self.y, other.y),
            z: sat_add(self.z, other.z),
        }
    }
}

impl AddSpecImpl for Vec3 {
    open spec fn obeys_add_spec() -> bool {
        true
    }

    open spec fn add_req(self, other: Vec3) -> bool {
        true
    }

    open spec fn add_spec(self, other: Vec3) -> Vec3 {
        self.sum_spec(other)
    }
}

/// `a + k` with a scalar adds `k` to every component.
impl core::ops::Add<i64> for Vec3 {
    type Output = Vec3;

    fn add(self, k: i64) -> (r: Vec3) {
        Vec3 { x: sat_add(self.x, k), y: sat_add(self.y, k), z: sat_add(self.z, k) }
    }
}

impl AddSpecImpl<i64> for Vec3 {
    open spec fn obeys_add_spec() -> bool {
        true
    }

    open spec fn add_req(self, k: i64) -> bool {
        true
    }

    open spec fn add_spec(self, k: i64) -> Vec3 {
        self.sum_spec(Vec3 { x: k, y: k, z: k })
    }
}

impl core::ops::Sub for Vec3 {
    type Output = Vec3;

    fn sub(self, other: Vec3) -> (r: Vec3) {
        Vec3 {
            x: sat_sub(self.x, other.x),
            y: sat_sub(self.y, other.y),
            z: sat_sub(self.z, other.z),
        }
    }
}

impl SubSpecImpl for Vec3 {
    open spec fn obeys_sub_spec() -> bool {
        true
    }

    open spec fn sub_req(self, other: Vec3) -> bool {
        true
    }

    open spec fn sub_spec(self, other: Vec3) -> Vec3 {
        self.difference_spec(other)
    }
}

/// `a * b` between two vectors is their scalar product.
impl core::ops::Mul for Vec3 {
    type Output = i128;

    fn mul(self, other: Vec3) -> (r: i128)
        ensures
            r == self.dot_spec(other),
            -3 * (DOT_MAX * DOT_MAX) <= r <= 3 * (DOT_MAX * DOT_MAX),
    {
        proof {
            let m = DOT_MAX as int;
            lemma_product_bounded(self.x as int, other.x as int, m, m);
            lemma_product_bounded(self.y as int, other.y as int, m, m);
            lemma_product_bounded(self.z as int, other.z as int, m, m);
            assert(m * m == 0x1000_0000_0000_0000_0000_0000_0000_0000int) by (nonlinear_arith)
                requires
                    m == 0x4000_0000_0000_0000,
            ;
        }
        wide_mul(self.x, other.x) + wide_mul(self.y, other.y) + wide_mul(self.z, other.z)
    }
}

impl MulSpecImpl for Vec3 {
    open spec fn obeys_mul_spec() -> bool {
        true
    }

    open spec fn mul_req(self, other: Vec3) -> bool {
        self.within(DOT_MAX as int) && other.within(DOT_MAX as int)
    }

    open spec fn mul_spec(self, other: Vec3) -> i128 {
        self.dot_spec(other) as i128
    }
}

/// `a * k` with a scalar scales the vector by the fixed-point factor `k`.
impl core::ops::Mul<i64> for Vec3 {
    type Output = Vec3;

    fn mul(self, k: i64) -> (r: Vec3) {
        Vec3 { x: fmul(self.x, k), y: fmul(self.y, k), z: fmul(self.z, k) }
    }
}

impl MulSpecImpl<i64> for Vec3 {
    open spec fn obeys_mul_spec() -> bool {
        true
    }

    open spec fn mul_req(self, k: i64) -> bool {
        true
    }

    open spec fn mul_spec(self, k: i64) -> Vec3 {
        self.scale_spec(k as int)
    }
}

/// `a / k` divides the vector by the fixed-point divisor `k`.
impl core::ops::Div<i64> for Vec3 {
    type Output = Vec3;

    fn div(self, k: i64) -> (r: Vec3) {
        Vec3 { x: fdiv(self.x, k), y: fdiv(self.y, k), z: fdiv(self.z, k) }
    }
}

impl DivSpecImpl<i64> for Vec3 {
    open spec fn obeys_div_spec() -> bool {
        true
    }

    open spec fn div_req(self, k: i64) -> bool {
        true
    }

    open spec fn div_spec(self, k: i64) -> Vec3 {
        self.quotient_spec(k as int)
    }
}

/// The vector product of two spans fits the scalars, so that
/// [`Vec3::cross_spec`] is the exact product.
pub proof fn lemma_cross_exact(a: Vec3, b: Vec3)
    requires
        a.within(SPAN_MAX as int),
        b.within(SPAN_MAX as int),
    ensures
        a.cross_spec(b).x == a.cross_x(b),
        a.cross_spec(b).y == a.cross_y(b),
        a.cross_spec(b).z == a.cross_z(b),
        a.cross_spec(b).within(2 * SPAN_MAX * SPAN_MAX),
{
    let m = SPAN_MAX as int;
    lemma_product_bounded(a.y as int, b.z as int, m, m);
    lemma_product_bounded(a.z as int, b.y as int, m, m);
    lemma_product_bounded(a.z as int, b.x as int, m, m);
    lemma_product_bounded(a.x as int, b.z as int, m, m);
    lemma_product_bounded(a.x as int, b.y as int, m, m);
    lemma_product_bounded(a.y as int, b.x as int, m, m);
    assert(m * m == 0x1000_0000_0000_0000) by (nonlinear_arith)
        requires
            m == 0x4000_0000,
    ;
}

} // verus!
