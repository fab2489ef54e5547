//! Helpers for vectors and colours, the laws of reflection and refraction,
//! and random draws.

use vstd::prelude::*;
use vstd::arithmetic::div_mod::lemma_fundamental_div_mod;
use rand::Rng;
use crate::interval::Interval;
use crate::scalar::{
    abs_spec, fdiv, fdiv_spec, fmul, fmul_spec, fsqrt, fsqrt_spec, INFINITY, is_sqrt_floor,
    lemma_floor_div_bounds, lemma_sqrt_exists, lemma_sqrt_floor_unique, max_spec, min_spec,
    NEG_INFINITY, sat_add, sat_sub, saturate, sqrt_floor, UNIT,
};
use crate::vec3::{DOT_MAX, Vec3};

verus! {

/// Absolute value; the one scalar without a positive counterpart, −∞, gives +∞.
pub fn fabs(num: i64) -> (r: i64)
    ensures
        r == saturate(abs_spec(num as int)),
{
    if num == NEG_INFINITY {
        INFINITY
    } else if num < 0 {
        -num
    } else {
        num
    }
}

pub fn fmin(v1: i64, v2: i64) -> (r: i64)
    ensures
        r == min_spec(v1 as int, v2 as int),
{
    if v1 > v2 {
        v2
    } else {
        v1
    }
}

pub fn fmax(v1: i64, v2: i64) -> (r: i64)
    ensures
        r == max_spec(v1 as int, v2 as int),
{
    if v1 > v2 {
        v1
    } else {
        v2
    }
}

/// The vector of length one unit in the direction of `v`, each component
/// rounded down; the zero vector for the zero vector.
pub open spec fn unit_vec_spec(v: Vec3) -> Vec3 {
    v.quotient_spec(sqrt_floor(v.dot_spec(v)))
}

pub fn unit_vec(v: Vec3) -> (r: Vec3)
    requires
        v.within(DOT_MAX as int),
    ensures
        r == unit_vec_spec(v),
        r.within(UNIT as int),
{
    let len: i64 = v.length();
    proof {
        lemma_unit_component(v.x as int, v.y as int, v.z as int, len as int);
        lemma_unit_component(v.y as int, v.z as int, v.x as int, len as int);
        lemma_unit_component(v.z as int, v.x as int, v.y as int, len as int);
    }
    v / len
}

/// A component of a vector, scaled to the unit and divided by the vector's
/// length, is no larger than the unit.
pub proof fn lemma_unit_component(a: int, b: int, c: int, len: int)
    requires
        NEG_INFINITY <= a <= INFINITY,
        is_sqrt_floor(a * a + b * b + c * c, len),
    ensures
        -UNIT <= fdiv_spec(a, len) <= UNIT,
{
    assert(b * b >= 0 && c * c >= 0) by (nonlinear_arith);
    assert(-len <= a <= len) by (nonlinear_arith)
        requires
            a * a <= a * a + b * b + c * c,
            a * a + b * b + c * c < (len + 1) * (len + 1),
            len >= 0,
    ;
    if len > 0 {
        let u = UNIT as int;
        lemma_floor_div_bounds(a * u, len);
        let q = (a * u) / len;
        assert(-u <= q <= u) by (nonlinear_arith)
            requires
                q * len <= a * u,
                a * u < (q + 1) * len,
                -len <= a <= len,
                len > 0,
                u > 0,
        ;
    }
}

/// The scalar product of two fixed-point vectors, as a fixed-point scalar:
/// each product is rounded down to the grid, and the sum saturates.
pub open spec fn fdot_spec(a: Vec3, b: Vec3) -> int {
    saturate(
        saturate(fmul_spec(a.x as int, b.x as int) + fmul_spec(a.y as int, b.y as int)) + fmul_spec(
            a.z as int,
            b.z as int,
        ),
    )
}

pub fn fdot(a: Vec3, b: Vec3) -> (r: i64)
    ensures
        r == fdot_spec(a, b),
{
    sat_add(sat_add(fmul(a.x, b.x), fmul(a.y, b.y)), fmul(a.z, b.z))
}

/// The product of two colours, component by component.
pub open spec fn dot_spec(a: Vec3, b: Vec3) -> Vec3 {
    Vec3 {
        x: fmul_spec(a.x as int, b.x as int) as i64,
        y: fmul_spec(a.y as int, b.y as int) as i64,
        z: fmul_spec(a.z as int, b.z as int) as i64,
    }
}

pub fn dot(a: Vec3, b: Vec3) -> (r: Vec3)
    ensures
        r == dot_spec(a, b),
{
    Vec3::new(fmul(a.x, b.x), fmul(a.y, b.y), fmul(a.z, b.z))
}

/// The direction `v` mirrored at a surface with the normal `n`:
/// `v − 2 (v·n) n`.
pub open spec fn reflect_spec(v: Vec3, n: Vec3) -> Vec3 {
    v.difference_spec(n.scale_spec(fdot_spec(v, n)).scale_spec(2 * UNIT))
}

pub fn reflect(v: Vec3, n: Vec3) -> (r: Vec3)
    ensures
        r == reflect_spec(v, n),
{
    v - n * fdot(v, n) * (2 * UNIT)
}

/// The fifth power of a fixed-point scalar.
pub open spec fn pow5_spec(x: int) -> int {
    let x2 = fmul_spec(x, x);
    let x4 = fmul_spec(x2, x2);
    fmul_spec(x4, x)
}

/// Schlick's approximation of the share of light that a surface between
/// two media reflects: `r0 + (1 − r0)(1 − cos θ)⁵` with
/// `r0 = ((1 − ratio) / (1 + ratio))²`.
pub open spec fn reflectance_spec(cos_theta: int, ratio: int) -> int {
    let r0 = fdiv_spec(saturate(UNIT - ratio), saturate(UNIT + ratio));
    let t = fmul_spec(r0, r0);
    saturate(t + fmul_spec(saturate(UNIT - t), pow5_spec(saturate(UNIT - cos_theta))))
}

pub fn reflectance(cos_theta: i64, ratio: i64) -> (r: i64)
    ensures
        r == reflectance_spec(cos_theta as int, ratio as int),
{
    let r0: i64 = fdiv(sat_sub(UNIT, ratio), sat_add(UNIT, ratio));
    let t: i64 = fmul(r0, r0);
    let x: i64 = sat_sub(UNIT, cos_theta);
    let x2: i64 = fmul(x, x);
    let x4: i64 = fmul(x2, x2);
    sat_add(t, fmul(sat_sub(UNIT, t), fmul(x4, x)))
}

/// Whether light that meets a surface at the cosine `cos_theta` is thrown
/// back rather than let through: always beyond the critical angle, else
/// where the reflectance is larger than the draw.
pub open spec fn reflects(cos_theta: int, ratio: int, draw: int) -> bool {
    let sin_theta = fsqrt_spec(saturate(UNIT - fmul_spec(cos_theta, cos_theta)));
    fmul_spec(ratio, sin_theta) >= UNIT || reflectance_spec(cos_theta, ratio) > draw
}

/// The direction of the unit vector `v` after the surface with the unit
/// normal `n`, for the ratio `ratio` of the refractive indices and the
/// draw `draw` from `[0, UNIT)`.
pub open spec fn refract_spec(v: Vec3, n: Vec3, ratio: int, draw: int) -> Vec3 {
    let cos_theta = fdot_spec((Vec3 { x: 0, y: 0, z: 0 }).difference_spec(v), n);
    if reflects(cos_theta, ratio, draw) {
        reflect_spec(v, n)
    } else {
        let perp = v.sum_spec(n.scale_spec(cos_theta)).scale_spec(ratio);
        let para = (Vec3 { x: 0, y: 0, z: 0 }).difference_spec(
            n.scale_spec(fsqrt_spec(saturate(abs_spec(saturate(UNIT - fdot_spec(perp, perp)))))),
        );
        perp.sum_spec(para)
    }
}

pub fn refract(v: Vec3, n: Vec3, ratio: i64, draw: i64) -> (r: Vec3)
    ensures
        r == refract_spec(v, n, ratio as int, draw as int),
{
    let cos_theta: i64 = fdot(Vec3::zero() - v, n);
    let sin_theta: i64 = fsqrt(sat_sub(UNIT, fmul(cos_theta, cos_theta)));
    if fmul(ratio, sin_theta) >= UNIT || reflectance(cos_theta, ratio) > draw {
        reflect(v, n)
    } else {
        let perp: Vec3 = (v + n * cos_theta) * ratio;
        let para: Vec3 = Vec3::zero() - n * fsqrt(fabs(sat_sub(UNIT, fdot(perp, perp))));
        perp + para
    }
}

/// The point `corner + horizontal·u + vertical·v − offset`.
pub fn ray_dir(
    lower_upper_left: &Vec3,
    horizontal: &Vec3,
    vertical: &Vec3,
    u: i64,
    v: i64,
    offset: Vec3,
) -> (r: Vec3)
    ensures
        r == lower_upper_left.sum_spec(horizontal.scale_spec(u as int)).sum_spec(
            vertical.scale_spec(v as int),
        ).difference_spec(offset),
{
    *lower_upper_left + *horizontal * u + *vertical * v - offset
}

/// The brightest a channel may be before it is scaled to a byte by
/// [`color`].
pub const CUT_MAX: i64 = 99_000;

/// A channel brought into `[0, 0.99]`.
pub fn cut(x: i64) -> (r: i64)
    ensures
        r == (Interval { tmin: 0, tmax: CUT_MAX }).clamp_spec(x as int),
        0 <= r <= CUT_MAX,
{
    if x > CUT_MAX {
        CUT_MAX
    } else if x < 0 {
        0
    } else {
        x
    }
}

/// The byte for a channel that was cut: `255 · c`, rounded down.
pub open spec fn byte_of(c: int, scale: int) -> int {
    (scale * c) / (UNIT as int)
}

/// The three bytes of a colour with channels from 0 to 1.
pub fn color(x: i64, y: i64, z: i64) -> (r: [u8; 3])
    ensures
        r[0] == byte_of(cut_spec(x as int), 255),
        r[1] == byte_of(cut_spec(y as int), 255),
        r[2] == byte_of(cut_spec(z as int), 255),
{
    [to_byte(cut(x), 255), to_byte(cut(y), 255), to_byte(cut(z), 255)]
}

pub open spec fn cut_spec(x: int) -> int {
    (Interval { tmin: 0, tmax: CUT_MAX }).clamp_spec(x)
}

/// Scales a channel between 0 and 1 to a byte.
pub fn to_byte(c: i64, scale: i64) -> (b: u8)
    requires
        0 <= c < UNIT,
        0 <= scale <= 256,
    ensures
        b == byte_of(c as int, scale as int),
{
    assert(0 <= scale * c <= 256 * (UNIT - 1)) by (nonlinear_arith)
        requires
            0 <= c <= UNIT - 1,
            0 <= scale <= 256,
    ;
    let wide: i64 = scale * c;
    let q: i64 = wide / UNIT;
    proof {
        lemma_fundamental_div_mod(wide as int, UNIT as int);
        assert(q < 256) by (nonlinear_arith)
            requires
                wide == UNIT * q + (wide as int % UNIT as int),
                0 <= (wide as int % UNIT as int),
                wide < 256 * UNIT,
                UNIT > 0,
            ;
    }
    q as u8
}

/// The random number generator of `rand` that belongs to the thread.
#[verifier::external_type_specification]
#[verifier::external_body]
pub struct ExThreadRng(rand::rngs::ThreadRng);

/// `thread_rng` of `rand`: the generator of the calling thread. Nothing is
/// claimed of it.
#[verifier::external_body]
fn thread_generator() -> rand::rngs::ThreadRng {
    rand::thread_rng()
}

/// `Rng::gen_range` of `rand`, for a half-open range of integers: some
/// integer from `low` up to, but not including, `high`. The crate panics
/// for an empty range, so the contract asks for `low < high`.
#[verifier::external_body]
fn draw_range(generator: &mut rand::rngs::ThreadRng, low: i64, high: i64) -> (r: i64)
    requires
        low < high,
    ensures
        low <= r < high,
{
    generator.gen_range(low..high)
}

/// A random scalar from `min` up to, but not including, `max`.
pub fn random_f64_range(min: i64, max: i64) -> (r: i64)
    requires
        min < max,
    ensures
        min <= r < max,
{
    let mut random = thread_generator();
    draw_range(&mut random, min, max)
}

/// A random integer from `min` to `max`, both included.
pub fn random_int_range(min: i32, max: i32) -> (r: i32)
    requires
        min <= max,
    ensures
        min <= r <= max,
{
    let mut random = thread_generator();
    draw_range(&mut random, min as i64, max as i64 + 1) as i32
}

/// A random scalar from 0 up to, but not including, 1.
pub fn random_f64_0_1() -> (r: i64)
    ensures
        0 <= r < UNIT,
{
    random_f64_range(0, UNIT)
}

/// A random scalar from 1 up to, but not including, 100.
pub fn random_f64_101() -> (r: i64)
    ensures
        UNIT <= r < 100 * UNIT,
{
    random_f64_range(UNIT, 100 * UNIT)
}

/// A random vector with every component from `min` up to, but not
/// including, `max`.
pub fn random_vec3_range(min: i64, max: i64) -> (r: Vec3)
    requires
        min < max,
    ensures
        min <= r.x < max,
        min <= r.y < max,
        min <= r.z < max,
{
    let mut random = thread_generator();
    let x: i64 = draw_range(&mut random, min, max);
    let y: i64 = draw_range(&mut random, min, max);
    let z: i64 = draw_range(&mut random, min, max);
    Vec3::new(x, y, z)
}

/// A random point of the cube of side 165 with a corner at the origin.
pub fn random_cen_165() -> (r: Vec3)
    ensures
        0 <= r.x < 165 * UNIT,
        0 <= r.y < 165 * UNIT,
        0 <= r.z < 165 * UNIT,
{
    random_vec3_range(0, 165 * UNIT)
}

/// A random point of the cube of side 2 about the origin.
pub fn random_vec3() -> (r: Vec3)
    ensures
        -UNIT <= r.x < UNIT,
        -UNIT <= r.y < UNIT,
        -UNIT <= r.z < UNIT,
{
    random_vec3_range(-UNIT, UNIT)
}

/// A random point of the square of side 1 about the origin of the x-y
/// plane.
pub fn random_squre() -> (r: Vec3)
    ensures
        -UNIT / 2 <= r.x < UNIT / 2,
        -UNIT / 2 <= r.y < UNIT / 2,
        r.z == 0,
{
    let mut random = thread_generator();
    let x: i64 = draw_range(&mut random, -UNIT / 2, UNIT / 2);
    let y: i64 = draw_range(&mut random, -UNIT / 2, UNIT / 2);
    Vec3::new(x, y, 0)
}

/// What a candidate from the cube becomes: nothing, if it lies outside the
/// unit ball, else the vector of length one unit in its direction.
pub open spec fn on_sphere(p: Vec3) -> Option<Vec3> {
    if p.dot_spec(p) >= UNIT * UNIT {
        None
    } else {
        Some(unit_vec_spec(p))
    }
}

/// A candidate for a random direction: a point of the cube of side 2 about
/// the origin, its upper faces left out.
pub open spec fn in_cube(p: Vec3) -> bool {
    &&& -UNIT <= p.x < UNIT
    &&& -UNIT <= p.y < UNIT
    &&& -UNIT <= p.z < UNIT
}

/// `v` is what some candidate that lies in the unit ball becomes.
pub open spec fn is_direction(v: Vec3) -> bool {
    exists|p: Vec3| #[trigger] in_cube(p) && on_sphere(p) == Some(v)
}

/// Takes or rejects a candidate for a random direction, see [`on_sphere`].
pub fn accept_on_sphere(p: Vec3) -> (r: Option<Vec3>)
    requires
        p.within(UNIT as int),
    ensures
        r == on_sphere(p),
        r.is_some() ==> r.unwrap().within(UNIT as int),
{
    if p.squared_length() >= 10_000_000_000 {
        None
    } else {
        let tmp: Vec3 = unit_vec(p);
        if tmp.near_zero() {
            Some(Vec3::zero())
        } else {
            Some(tmp)
        }
    }
}

/// What a candidate from the square becomes: nothing, if it lies outside
/// the unit disk, else itself.
pub open spec fn in_disk(p: Vec3) -> Option<Vec3> {
    if p.dot_spec(p) >= UNIT * UNIT {
        None
    } else {
        Some(p)
    }
}

/// Takes or rejects a candidate for a random point of the unit disk, see
/// [`in_disk`].
pub fn accept_in_disk(p: Vec3) -> (r: Option<Vec3>)
    requires
        p.within(UNIT as int),
    ensures
        r == in_disk(p),
{
    if p.squared_length() >= 10_000_000_000 {
        None
    } else if p.near_zero() {
        Some(Vec3::zero())
    } else {
        Some(p)
    }
}

/// A random direction: candidates are drawn from the cube of side 2 until
/// one lies in the unit ball, and that one is brought to unit length. The
/// zero vector stands for a candidate too short to have a direction, and
/// for the case that every one of 2⁶⁴ − 1 candidates in a row was rejected.
pub fn random_in_unit_shpere() -> (r: Vec3)
    ensures
        r.within(UNIT as int),
        is_direction(r),
{
    let mut random = thread_generator();
    let mut tries: u64 = 0xffff_ffff_ffff_ffff;
    while tries > 0
        decreases tries,
    {
        let x: i64 = draw_range(&mut random, -UNIT, UNIT);
        let y: i64 = draw_range(&mut random, -UNIT, UNIT);
        let z: i64 = draw_range(&mut random, -UNIT, UNIT);
        let candidate: Vec3 = Vec3::new(x, y, z);
        match accept_on_sphere(candidate) {
            Some(v) => {
                assert(in_cube(candidate) && on_sphere(candidate) == Some(v));
                return v;
            },
            None => {},
        }
        tries = tries - 1;
    }
    proof {
        lemma_centre_is_direction();
    }
    Vec3::zero()
}

/// The centre of the cube is a candidate, and it becomes the zero vector.
proof fn lemma_centre_is_direction()
    ensures
        is_direction(Vec3 { x: 0, y: 0, z: 0 }),
{
    let centre = Vec3 { x: 0, y: 0, z: 0 };
    assert(centre.dot_spec(centre) == 0) by (nonlinear_arith)
        requires
            centre.x == 0,
            centre.y == 0,
            centre.z == 0,
            centre.dot_spec(centre) == centre.x * centre.x + centre.y * centre.y + centre.z
                * centre.z,
    ;
    lemma_sqrt_exists(0);
    assert(is_sqrt_floor(0, 0));
    lemma_sqrt_floor_unique(0, sqrt_floor(0), 0);
    assert(in_cube(centre) && on_sphere(centre) == Some(centre));
}

/// A random point of the unit disk in the x-y plane: candidates are drawn
/// from the square of side 2 until one lies in the disk. The zero vector
/// stands for the case that every one of 2⁶⁴ − 1 candidates in a row was
/// rejected.
pub fn random_in_unit_disk() -> (r: Vec3)
    ensures
        r.within(UNIT as int),
        r.z == 0,
        r.dot_spec(r) < UNIT * UNIT,
{
    let mut random = thread_generator();
    let mut tries: u64 = 0xffff_ffff_ffff_ffff;
    while tries > 0
        decreases tries,
    {
        let x: i64 = draw_range(&mut random, -UNIT, UNIT);
        let y: i64 = draw_range(&mut random, -UNIT, UNIT);
        match accept_in_disk(Vec3::new(x, y, 0)) {
            Some(v) => {
                return v;
            },
            None => {},
        }
        tries = tries - 1;
    }
    proof {
        assert(0 * 0 == 0) by (nonlinear_arith);
    }
    Vec3::zero()
}

/// `v` itself where it points to the side of `normal`, else its opposite.
pub open spec fn facing_spec(v: Vec3, normal: Vec3) -> Vec3 {
    if v.dot_spec(normal) > 0 {
        v
    } else {
        (Vec3 { x: 0, y: 0, z: 0 }).difference_spec(v)
    }
}

/// Turns a direction to the side of the surface to which `normal` points,
/// see [`facing_spec`].
pub fn facing(v: Vec3, normal: Vec3) -> (r: Vec3)
    requires
        v.within(DOT_MAX as int),
        normal.within(DOT_MAX as int),
    ensures
        r == facing_spec(v, normal),
        r.dot_spec(normal) >= 0,
        v.within(UNIT as int) ==> r.within(UNIT as int),
{
    if v * normal > 0 {
        v
    } else {
        let back: Vec3 = Vec3::zero() - v;
        proof {
            assert(back.dot_spec(normal) == -v.dot_spec(normal)) by (nonlinear_arith)
                requires
                    back.x == -v.x,
                    back.y == -v.y,
                    back.z == -v.z,
                    back.dot_spec(normal) == back.x * normal.x + back.y * normal.y + back.z
                        * normal.z,
                    v.dot_spec(normal) == v.x * normal.x + v.y * normal.y + v.z * normal.z,
            ;
        }
        back
    }
}

/// A random direction on the side of the surface to which `normal` points:
/// a direction as [`random_in_unit_shpere`] draws it, turned to that side.
pub fn random_on_hemisphere(normal: Vec3) -> (r: Vec3)
    requires
        normal.within(DOT_MAX as int),
    ensures
        r.within(UNIT as int),
        r.dot_spec(normal) >= 0,
        exists|v: Vec3| #[trigger] is_direction(v) && r == facing_spec(v, normal),
{
    let unit_sphere: Vec3 = random_in_unit_shpere();
    let r: Vec3 = facing(unit_sphere, normal);
    assert(is_direction(unit_sphere) && r == facing_spec(unit_sphere, normal));
    r
}

} // verus!
