//! Scalars on the grid: saturating and extended arithmetic, rounded
//! division, products and quotients of fixed-point numbers, square roots
//! and angles, all in integers.

use vstd::prelude::*;
use vstd::arithmetic::div_mod::{lemma_fundamental_div_mod, lemma_fundamental_div_mod_converse};
use vstd::arithmetic::power2::{lemma2_to64, lemma_pow2_strictly_increases, lemma_pow2_unfold, pow2};
use crate::interval::Interval;

verus! {

/// Grid steps per unit of length.
pub const UNIT: i64 = 100_000;

/// The scalar that stands for +∞.
pub const INFINITY: i64 = 0x7fff_ffff_ffff_ffff;

/// The scalar that stands for −∞.
pub const NEG_INFINITY: i64 = -0x7fff_ffff_ffff_ffff - 1;

/// Largest magnitude of a coordinate of a point of the scene.
pub const COORD_MAX: i64 = 0x2000_0000;

/// Largest magnitude of a component of a vector between two points of the
/// scene, and of a ray direction.
pub const SPAN_MAX: i64 = 0x4000_0000;

/// The nearest scalar to the integer `x`: `x` itself where it fits, else the
/// infinity on its side.
pub open spec fn saturate(x: int) -> int {
    if x > INFINITY {
        INFINITY as int
    } else if x < NEG_INFINITY {
        NEG_INFINITY as int
    } else {
        x
    }
}

pub open spec fn is_infinite(x: int) -> bool {
    x == INFINITY || x == NEG_INFINITY
}

/// Sum of an extended scalar and a finite offset: an infinite `x` stays what
/// it is, a finite one saturates.
pub open spec fn ext_add_spec(x: int, d: int) -> int {
    if is_infinite(x) {
        x
    } else {
        saturate(x + d)
    }
}

pub open spec fn min_spec(a: int, b: int) -> int {
    if a > b {
        b
    } else {
        a
    }
}

pub open spec fn max_spec(a: int, b: int) -> int {
    if a > b {
        a
    } else {
        b
    }
}

pub open spec fn abs_spec(a: int) -> int {
    if a < 0 {
        -a
    } else {
        a
    }
}

/// Brings a wide intermediate result back to a scalar.
pub fn saturating(x: i128) -> (r: i64)
    ensures
        r == saturate(x as int),
{
    if x > INFINITY as i128 {
        INFINITY
    } else if x < NEG_INFINITY as i128 {
        NEG_INFINITY
    } else {
        x as i64
    }
}

/// Extended addition, see [`ext_add_spec`].
pub fn ext_add(x: i64, d: i64) -> (r: i64)
    ensures
        r == ext_add_spec(x as int, d as int),
{
    if x == INFINITY || x == NEG_INFINITY {
        x
    } else {
        saturating(x as i128 + d as i128)
    }
}

/// Difference of two extended scalars. An infinite operand decides the
/// result; the two differences that have no value, `∞ − ∞` and
/// `(−∞) − (−∞)`, are 0.
pub open spec fn ext_sub_spec(a: int, b: int) -> int {
    if a == INFINITY {
        if b == INFINITY {
            0
        } else {
            INFINITY as int
        }
    } else if a == NEG_INFINITY {
        if b == NEG_INFINITY {
            0
        } else {
            NEG_INFINITY as int
        }
    } else if b == INFINITY {
        NEG_INFINITY as int
    } else if b == NEG_INFINITY {
        INFINITY as int
    } else {
        saturate(a - b)
    }
}

/// Extended subtraction, see [`ext_sub_spec`].
pub fn ext_sub(a: i64, b: i64) -> (r: i64)
    ensures
        r == ext_sub_spec(a as int, b as int),
{
    if a == INFINITY {
        if b == INFINITY {
            0
        } else {
            INFINITY
        }
    } else if a == NEG_INFINITY {
        if b == NEG_INFINITY {
            0
        } else {
            NEG_INFINITY
        }
    } else if b == INFINITY {
        NEG_INFINITY
    } else if b == NEG_INFINITY {
        INFINITY
    } else {
        sat_sub(a, b)
    }
}

/// Difference of two scalars, saturated.
pub fn sat_sub(a: i64, b: i64) -> (r: i64)
    ensures
        r == saturate(a - b),
{
    saturating(a as i128 - b as i128)
}

/// Sum of two scalars, saturated.
pub fn sat_add(a: i64, b: i64) -> (r: i64)
    ensures
        r == saturate(a + b),
{
    saturating(a as i128 + b as i128)
}

/// The product of two scalars never leaves the range of the wide integers.
pub proof fn lemma_product_fits(a: int, b: int)
    requires
        NEG_INFINITY <= a <= INFINITY,
        NEG_INFINITY <= b <= INFINITY,
    ensures
        -0x4000_0000_0000_0000_0000_0000_0000_0000 <= a * b
            <= 0x4000_0000_0000_0000_0000_0000_0000_0000,
{
    lemma_product_bounded(a, b, 0x8000_0000_0000_0000, 0x8000_0000_0000_0000);
}

/// `|a| ≤ m` and `|b| ≤ n` give `|a·b| ≤ m·n`.
pub proof fn lemma_product_bounded(a: int, b: int, m: int, n: int)
    by (nonlinear_arith)
    requires
        -m <= a <= m,
        -n <= b <= n,
    ensures
        -(m * n) <= a * b <= m * n,
{
}

/// Exact product of two scalars.
pub fn wide_mul(a: i64, b: i64) -> (r: i128)
    ensures
        r == a * b,
{
    proof {
        lemma_product_fits(a as int, b as int);
    }
    (a as i128) * (b as i128)
}

/// Quotient of two integers rounded towards −∞.
pub open spec fn floor_div_spec(n: int, d: int) -> int {
    if d > 0 {
        n / d
    } else {
        (-n) / (-d)
    }
}

/// Quotient of two integers rounded towards +∞.
pub open spec fn ceil_div_spec(n: int, d: int) -> int {
    -floor_div_spec(-n, d)
}

/// The defining property of the rounded-down quotient: it is the one
/// integer `q` with `q·d ≤ n < (q+1)·d`, for a positive `d`.
pub proof fn lemma_floor_div_bounds(n: int, d: int)
    requires
        d > 0,
    ensures
        floor_div_spec(n, d) * d <= n < (floor_div_spec(n, d) + 1) * d,
{
    lemma_fundamental_div_mod(n, d);
    let q = n / d;
    assert(q * d == d * q && (q + 1) * d == d * q + d) by (nonlinear_arith);
}

/// Quotient of an integer by a positive one, rounded to the nearest
/// integer; a half is rounded up.
pub open spec fn nearest_spec(n: int, d: int) -> int {
    floor_div_spec(2 * n + d, 2 * d)
}

/// `x` where it lies from `low` to `high`, else the nearer of the two.
pub open spec fn kept_within(x: int, low: int, high: int) -> int {
    if x < low {
        low
    } else if x > high {
        high
    } else {
        x
    }
}

pub fn floor_div(n: i128, d: i128) -> (q: i128)
    requires
        d != 0,
        -0x7fff_ffff_ffff_ffff_ffff_ffff_ffff_ffff <= n,
        -0x7fff_ffff_ffff_ffff_ffff_ffff_ffff_ffff <= d,
    ensures
        q == floor_div_spec(n as int, d as int),
{
    let (num, den): (i128, i128) = if d < 0 {
        (-n, -d)
    } else {
        (n, d)
    };
    let quot: i128 = num / den;
    let rem: i128 = num % den;
    if rem < 0 {
        proof {
            let m = -(num as int);
            lemma_fundamental_div_mod(m, den as int);
            assert(num == (quot - 1) * den + (den + rem)) by (nonlinear_arith)
                requires
                    m == den * (m / (den as int)) + (m % (den as int)),
                    quot == -(m / (den as int)),
                    rem == -(m % (den as int)),
                    num == -m,
            ;
            lemma_fundamental_div_mod_converse(num as int, den as int, quot - 1, den + rem);
            assert(quot - 1 >= -0x7fff_ffff_ffff_ffff_ffff_ffff_ffff_ffff) by (nonlinear_arith)
                requires
                    num == (quot - 1) * den + (den + rem),
                    0 <= den + rem < den,
                    num >= -0x7fff_ffff_ffff_ffff_ffff_ffff_ffff_ffff,
                    den > 0,
            ;
        }
        quot - 1
    } else {
        proof {
            if num >= 0 {
                lemma_fundamental_div_mod(num as int, den as int);
                assert(num == quot * den + rem) by (nonlinear_arith)
                    requires
                        num == den * quot + rem,
                ;
            } else {
                let m = -(num as int);
                lemma_fundamental_div_mod(m, den as int);
                assert(num == quot * den + rem) by (nonlinear_arith)
                    requires
                        m == den * (m / (den as int)) + (m % (den as int)),
                        quot == -(m / (den as int)),
                        rem == -(m % (den as int)),
                        num == -m,
                ;
            }
            lemma_fundamental_div_mod_converse(num as int, den as int, quot as int, rem as int);
        }
        quot
    }
}

pub fn ceil_div(n: i128, d: i128) -> (q: i128)
    requires
        d != 0,
        -0x7fff_ffff_ffff_ffff_ffff_ffff_ffff_ffff <= n,
        -0x7fff_ffff_ffff_ffff_ffff_ffff_ffff_ffff <= d,
    ensures
        q == ceil_div_spec(n as int, d as int),
{
    let f: i128 = floor_div(-n, d);
    proof {
        if d > 0 {
            lemma_floor_div_bounds(-(n as int), d as int);
            assert(f > -0x7fff_ffff_ffff_ffff_ffff_ffff_ffff_ffff - 1) by (nonlinear_arith)
                requires
                    -n < (f + 1) * d,
                    d > 0,
                    -n >= -0x7fff_ffff_ffff_ffff_ffff_ffff_ffff_ffff,
            ;
        } else {
            lemma_floor_div_bounds(n as int, -(d as int));
            assert(f > -0x7fff_ffff_ffff_ffff_ffff_ffff_ffff_ffff - 1) by (nonlinear_arith)
                requires
                    n < (f + 1) * (-d),
                    -d > 0,
                    n >= -0x7fff_ffff_ffff_ffff_ffff_ffff_ffff_ffff,
            ;
        }
    }
    -f
}

/// Product of two fixed-point scalars: `a·b / UNIT`, rounded down, saturated.
pub open spec fn fmul_spec(a: int, b: int) -> int {
    saturate((a * b) / (UNIT as int))
}

pub fn fmul(a: i64, b: i64) -> (r: i64)
    ensures
        r == fmul_spec(a as int, b as int),
{
    let p: i128 = wide_mul(a, b);
    proof {
        lemma_product_fits(a as int, b as int);
    }
    saturating(floor_div(p, UNIT as i128))
}

/// Quotient of two fixed-point scalars: `a·UNIT / b`, rounded down,
/// saturated. A zero divisor gives the infinity on the side of `a`, and zero
/// for `0 / 0`.
pub open spec fn fdiv_spec(a: int, b: int) -> int {
    if b == 0 {
        if a > 0 {
            INFINITY as int
        } else if a < 0 {
            NEG_INFINITY as int
        } else {
            0
        }
    } else {
        saturate(floor_div_spec(a * UNIT, b))
    }
}

pub fn fdiv(a: i64, b: i64) -> (r: i64)
    ensures
        r == fdiv_spec(a as int, b as int),
{
    if b == 0 {
        if a > 0 {
            INFINITY
        } else if a < 0 {
            NEG_INFINITY
        } else {
            0
        }
    } else {
        let p: i128 = wide_mul(a, UNIT);
        proof {
            lemma_product_bounded(a as int, UNIT as int, 0x8000_0000_0000_0000, 100_000);
        }
        saturating(floor_div(p, b as i128))
    }
}

/// The integer square root: the one `r ≥ 0` with `r² ≤ n < (r+1)²`.
pub open spec fn is_sqrt_floor(n: int, r: int) -> bool {
    r >= 0 && r * r <= n < (r + 1) * (r + 1)
}

pub open spec fn sqrt_floor(n: int) -> int {
    choose|r: int| is_sqrt_floor(n, r)
}

/// Every integer that is not negative has an integer square root.
pub proof fn lemma_sqrt_exists(n: int)
    requires
        n >= 0,
    ensures
        is_sqrt_floor(n, sqrt_floor(n)),
    decreases n,
{
    if n == 0 {
        assert(is_sqrt_floor(0, 0));
    } else {
        lemma_sqrt_exists(n - 1);
        let r = sqrt_floor(n - 1);
        if (r + 1) * (r + 1) <= n {
            assert(n < (r + 2) * (r + 2)) by (nonlinear_arith)
                requires
                    n - 1 < (r + 1) * (r + 1),
                    r >= 0,
            ;
            assert(is_sqrt_floor(n, r + 1));
        } else {
            assert(is_sqrt_floor(n, r));
        }
    }
}

/// At most one integer is the integer square root of `n`.
pub proof fn lemma_sqrt_floor_unique(n: int, r: int, s: int)
    requires
        is_sqrt_floor(n, r),
        is_sqrt_floor(n, s),
    ensures
        r == s,
{
    if r < s {
        assert((r + 1) * (r + 1) <= s * s) by (nonlinear_arith)
            requires
                0 <= r + 1 <= s,
        ;
    }
    if s < r {
        assert((s + 1) * (s + 1) <= r * r) by (nonlinear_arith)
            requires
                0 <= s + 1 <= r,
        ;
    }
}

/// Integer square root of a non-negative wide integer.
pub fn isqrt(n: u128) -> (r: u64)
    ensures
        is_sqrt_floor(n as int, r as int),
        r == sqrt_floor(n as int),
{
    let mut lo: u128 = 0;
    let mut hi: u128 = 0x1_0000_0000_0000_0000;
    assert(0x1_0000_0000_0000_0000int * 0x1_0000_0000_0000_0000int
        == 0x1_0000_0000_0000_0000_0000_0000_0000_0000int) by (nonlinear_arith);
    while hi - lo > 1
        invariant
            lo < hi <= 0x1_0000_0000_0000_0000,
            lo * lo <= n,
            n < hi * hi,
        decreases hi - lo,
    {
        let mid: u128 = lo + (hi - lo) / 2;
        assert(mid * mid <= 0xffff_ffff_ffff_ffff * 0xffff_ffff_ffff_ffff) by (nonlinear_arith)
            requires
                0 <= mid <= 0xffff_ffff_ffff_ffff,
        ;
        if mid * mid <= n {
            lo = mid;
        } else {
            hi = mid;
        }
    }
    proof {
        assert(hi == lo + 1);
        lemma_sqrt_floor_unique(n as int, lo as int, sqrt_floor(n as int));
    }
    lo as u64
}

/// The square root of a fixed-point scalar, rounded down; 0 for anything
/// that is not positive.
pub open spec fn fsqrt_spec(x: int) -> int {
    if x <= 0 {
        0
    } else {
        sqrt_floor(x * UNIT)
    }
}

pub fn fsqrt(x: i64) -> (r: i64)
    ensures
        r == fsqrt_spec(x as int),
        r >= 0,
{
    if x <= 0 {
        0
    } else {
        let wide: u128 = (x as u128) * 100_000;
        let root: u64 = isqrt(wide);
        proof {
            assert(root < 0x1_0000_0000_0000) by (nonlinear_arith)
                requires
                    root * root <= wide,
                    wide < 0x1_0000_0000_0000_0000_0000,
                    root >= 0,
            ;
        }
        root as i64
    }
}

/// How many turns the arc tangent takes.
pub const ANGLE_STEPS: u8 = 28;

/// π in units of 10⁻⁸, the unit in which the arc tangent adds up angles.
pub const PI_FINE: i64 = 314_159_265;

/// π as a fixed-point scalar.
pub const PI: i64 = 314_159;

/// A right angle as a fixed-point scalar, rounded to the nearest step.
pub const HALF_PI: i64 = 157_080;

/// 2π as a fixed-point scalar.
pub const TWO_PI: i64 = 628_319;

/// The angle whose tangent is 2⁻ⁱ, in units of 10⁻⁸.
pub open spec fn turn_angle(i: int) -> int {
    if i == 0 {
        78_539_816
    } else if i == 1 {
        46_364_761
    } else if i == 2 {
        24_497_866
    } else if i == 3 {
        12_435_499
    } else if i == 4 {
        6_241_881
    } else if i == 5 {
        3_123_983
    } else if i == 6 {
        1_562_373
    } else if i == 7 {
        781_234
    } else if i == 8 {
        390_623
    } else if i == 9 {
        195_312
    } else if i == 10 {
        97_656
    } else if i == 11 {
        48_828
    } else if i == 12 {
        24_414
    } else if i == 13 {
        12_207
    } else if i == 14 {
        6_104
    } else if i == 15 {
        3_052
    } else if i == 16 {
        1_526
    } else if i == 17 {
        763
    } else if i == 18 {
        381
    } else if i == 19 {
        191
    } else if i == 20 {
        95
    } else if i == 21 {
        48
    } else if i == 22 {
        24
    } else if i == 23 {
        12
    } else if i == 24 {
        6
    } else if i == 25 {
        3
    } else if i == 26 {
        1
    } else {
        1
    }
}

/// Computes [`turn_angle`].
pub fn turn_angle_of(i: u8) -> (r: i64)
    ensures
        r == turn_angle(i as int),
        0 < r <= 78_539_816,
{
    if i == 0 {
        78_539_816
    } else if i == 1 {
        46_364_761
    } else if i == 2 {
        24_497_866
    } else if i == 3 {
        12_435_499
    } else if i == 4 {
        6_241_881
    } else if i == 5 {
        3_123_983
    } else if i == 6 {
        1_562_373
    } else if i == 7 {
        781_234
    } else if i == 8 {
        390_623
    } else if i == 9 {
        195_312
    } else if i == 10 {
        97_656
    } else if i == 11 {
        48_828
    } else if i == 12 {
        24_414
    } else if i == 13 {
        12_207
    } else if i == 14 {
        6_104
    } else if i == 15 {
        3_052
    } else if i == 16 {
        1_526
    } else if i == 17 {
        763
    } else if i == 18 {
        381
    } else if i == 19 {
        191
    } else if i == 20 {
        95
    } else if i == 21 {
        48
    } else if i == 22 {
        24
    } else if i == 23 {
        12
    } else if i == 24 {
        6
    } else if i == 25 {
        3
    } else if i == 26 {
        1
    } else {
        1
    }
}

/// The angle of the vector `(x, y)` by turning it onto the x axis: from
/// turn `i` on, with `d = 2ⁱ`, the vector is turned by the angle whose
/// tangent is `1 / d` towards the axis, and the angle is added to or taken
/// from `z`.
pub open spec fn turned_onto_axis(x: int, y: int, z: int, d: int, i: int) -> int
    decreases ANGLE_STEPS - i,
{
    if i >= ANGLE_STEPS || d <= 0 {
        z
    } else if y > 0 {
        turned_onto_axis(x + y / d, y - x / d, z + turn_angle(i), 2 * d, i + 1)
    } else {
        turned_onto_axis(x - y / d, y + x / d, z - turn_angle(i), 2 * d, i + 1)
    }
}

/// The angle of the vector `(x, y)` with components between −1 and 1, in
/// radians from −π to π. On the axes it is exact: 0 along +x and for the
/// zero vector, π along −x, and the right angle along +y and −y. Elsewhere
/// the vector is turned onto the x axis and the sum of the turns is rounded
/// to the nearest step.
pub open spec fn arc_tangent_spec(y: int, x: int) -> int {
    if y == 0 {
        if x < 0 {
            PI as int
        } else {
            0
        }
    } else if x == 0 {
        if y > 0 {
            HALF_PI as int
        } else {
            -HALF_PI
        }
    } else if x < 0 {
        kept_within(
            nearest_spec(
                turned_onto_axis(
                    -x * 4096,
                    -y * 4096,
                    if y >= 0 {
                        PI_FINE as int
                    } else {
                        -PI_FINE
                    },
                    1,
                    0,
                ),
                1000,
            ),
            -PI,
            PI as int,
        )
    } else {
        kept_within(
            nearest_spec(turned_onto_axis(x * 4096, y * 4096, 0, 1, 0), 1000),
            -PI,
            PI as int,
        )
    }
}

/// `|y / d| ≤ |y|` for a divisor of at least 1.
pub proof fn lemma_quotient_no_larger(y: int, d: int)
    requires
        d >= 1,
    ensures
        y >= 0 ==> 0 <= y / d <= y,
        y <= 0 ==> y <= y / d <= 0,
{
    lemma_floor_div_bounds(y, d);
    let q = y / d;
    if y >= 0 {
        assert(0 <= q <= y) by (nonlinear_arith)
            requires
                q * d <= y,
                y < (q + 1) * d,
                d >= 1,
                y >= 0,
        ;
    } else {
        assert(y <= q <= 0) by (nonlinear_arith)
            requires
                q * d <= y,
                y < (q + 1) * d,
                d >= 1,
                y <= 0,
        ;
    }
}

pub fn arc_tangent(y: i64, x: i64) -> (r: i64)
    requires
        -UNIT <= x <= UNIT,
        -UNIT <= y <= UNIT,
    ensures
        r == arc_tangent_spec(y as int, x as int),
        -PI <= r <= PI,
{
    if y == 0 {
        return if x < 0 {
            PI
        } else {
            0
        };
    }
    if x == 0 {
        return if y > 0 {
            HALF_PI
        } else {
            -HALF_PI
        };
    }
    let mut px: i64 = if x < 0 {
        -x * 4096
    } else {
        x * 4096
    };
    let mut py: i64 = if x < 0 {
        -y * 4096
    } else {
        y * 4096
    };
    let mut z: i64 = if x < 0 {
        if y >= 0 {
            PI_FINE
        } else {
            -PI_FINE
        }
    } else {
        0
    };
    let ghost x0 = px as int;
    let ghost y0 = py as int;
    let ghost z0 = z as int;
    let mut d: i64 = 1;
    let mut i: u8 = 0;
    proof {
        lemma2_to64();
    }
    while i < ANGLE_STEPS
        invariant
            i <= ANGLE_STEPS,
            d == pow2(i as nat),
            -0x8000_0000 * d <= px <= 0x8000_0000 * d,
            -0x8000_0000 * d <= py <= 0x8000_0000 * d,
            -PI_FINE - 78_539_816 * i <= z <= PI_FINE + 78_539_816 * i,
            turned_onto_axis(x0, y0, z0, 1, 0) == turned_onto_axis(
                px as int,
                py as int,
                z as int,
                d as int,
                i as int,
            ),
        decreases ANGLE_STEPS - i,
    {
        proof {
            lemma2_to64();
            lemma_pow2_strictly_increases(i as nat, 28);
            lemma_pow2_unfold((i + 1) as nat);
            lemma_quotient_no_larger(px as int, d as int);
            lemma_quotient_no_larger(py as int, d as int);
        }
        let qx: i64 = floor_div(px as i128, d as i128) as i64;
        let qy: i64 = floor_div(py as i128, d as i128) as i64;
        let angle: i64 = turn_angle_of(i);
        if py > 0 {
            px = px + qy;
            py = py - qx;
            z = z + angle;
        } else {
            px = px - qy;
            py = py + qx;
            z = z - angle;
        }
        i = i + 1;
        d = 2 * d;
    }
    let angle: i128 = nearest(z as i128, 1000);
    if angle < -(PI as i128) {
        -PI
    } else if angle > PI as i128 {
        PI
    } else {
        angle as i64
    }
}

/// The angle whose cosine is `c`, in radians from 0 to π: the angle of the
/// vector with that cosine and the sine that belongs to it, kept between 0
/// and π, so exact for the cosines 1, 0 and −1. A cosine beyond ±1 counts
/// as ±1.
pub open spec fn arc_cosine_spec(c: int) -> int {
    let inside = (Interval { tmin: (-UNIT) as i64, tmax: UNIT }).clamp_spec(c);
    kept_within(arc_tangent_spec(sqrt_floor(UNIT * UNIT - inside * inside), inside), 0, PI as int)
}

pub fn arc_cosine(c: i64) -> (r: i64)
    ensures
        r == arc_cosine_spec(c as int),
        0 <= r <= PI,
{
    let inside: i64 = (Interval { tmin: -UNIT, tmax: UNIT }).clamp(c);
    assert(0 <= inside * inside <= UNIT * UNIT) by (nonlinear_arith)
        requires
            -UNIT <= inside <= UNIT,
    ;
    let square: i64 = UNIT * UNIT - inside * inside;
    let sine: u64 = isqrt(square as u128);
    assert(sine <= UNIT) by (nonlinear_arith)
        requires
            sine * sine <= square,
            square <= UNIT * UNIT,
            UNIT == 100_000,
            sine >= 0,
    ;
    let angle: i64 = arc_tangent(sine as i64, inside);
    if angle < 0 {
        0
    } else {
        angle
    }
}

/// One, in the unit in which vectors are turned: 2³⁰.
pub const FINE_ONE: i64 = 0x4000_0000;

/// One over the factor by which all the turns together stretch a vector,
/// in units of 2⁻³⁰.
pub const TURN_SHRINK: i64 = 652_032_874;

/// The vector `(x, y)` after it was turned by the angle `z`, turn by turn:
/// from turn `i` on, with `d = 2ⁱ`, it is turned by the angle whose
/// tangent is `1 / d`, towards the angle that is left.
pub open spec fn turned_by(x: int, y: int, z: int, d: int, i: int) -> (int, int)
    decreases ANGLE_STEPS - i,
{
    if i >= ANGLE_STEPS || d <= 0 {
        (x, y)
    } else if z >= 0 {
        turned_by(x - y / d, y + x / d, z - turn_angle(i), 2 * d, i + 1)
    } else {
        turned_by(x + y / d, y - x / d, z + turn_angle(i), 2 * d, i + 1)
    }
}

/// The sine and the cosine of an angle between −π and π that is given in
/// units of 10⁻⁸, as fixed-point scalars: the unit vector along the x axis
/// is turned by the angle, and its components are rounded to the nearest
/// step and kept between −1 and 1.
pub open spec fn sine_cosine_spec(angle: int) -> (int, int) {
    let turned = turned_by(TURN_SHRINK as int, 0, angle, 1, 0);
    (
        kept_within(nearest_spec(turned.1 * UNIT, FINE_ONE as int), -UNIT, UNIT as int),
        kept_within(nearest_spec(turned.0 * UNIT, FINE_ONE as int), -UNIT, UNIT as int),
    )
}

pub fn sine_cosine(angle: i64) -> (r: (i64, i64))
    requires
        -PI_FINE <= angle <= PI_FINE,
    ensures
        r.0 == sine_cosine_spec(angle as int).0,
        r.1 == sine_cosine_spec(angle as int).1,
        -UNIT <= r.0 <= UNIT,
        -UNIT <= r.1 <= UNIT,
{
    let mut px: i64 = TURN_SHRINK;
    let mut py: i64 = 0;
    let mut z: i64 = angle;
    let mut d: i64 = 1;
    let mut i: u8 = 0;
    proof {
        lemma2_to64();
    }
    while i < ANGLE_STEPS
        invariant
            i <= ANGLE_STEPS,
            d == pow2(i as nat),
            -0x4000_0000 * d <= px <= 0x4000_0000 * d,
            -0x4000_0000 * d <= py <= 0x4000_0000 * d,
            -PI_FINE - 78_539_816 * i <= z <= PI_FINE + 78_539_816 * i,
            turned_by(TURN_SHRINK as int, 0, angle as int, 1, 0) == turned_by(
                px as int,
                py as int,
                z as int,
                d as int,
                i as int,
            ),
        decreases ANGLE_STEPS - i,
    {
        proof {
            lemma2_to64();
            lemma_pow2_strictly_increases(i as nat, 28);
            lemma_pow2_unfold((i + 1) as nat);
            lemma_quotient_no_larger(px as int, d as int);
            lemma_quotient_no_larger(py as int, d as int);
        }
        let qx: i64 = floor_div(px as i128, d as i128) as i64;
        let qy: i64 = floor_div(py as i128, d as i128) as i64;
        let turn: i64 = turn_angle_of(i);
        if z >= 0 {
            px = px - qy;
            py = py + qx;
            z = z - turn;
        } else {
            px = px + qy;
            py = py - qx;
            z = z + turn;
        }
        i = i + 1;
        d = 2 * d;
    }
    proof {
        lemma2_to64();
    }
    let sine: i128 = nearest((py as i128) * 100_000, FINE_ONE as i128);
    let cosine: i128 = nearest((px as i128) * 100_000, FINE_ONE as i128);
    (keep_in_unit(sine), keep_in_unit(cosine))
}

/// Computes [`kept_within`] for the range from −1 to 1.
pub fn keep_in_unit(x: i128) -> (r: i64)
    ensures
        r == kept_within(x as int, -UNIT, UNIT as int),
        -UNIT <= r <= UNIT,
{
    if x < -(UNIT as i128) {
        -UNIT
    } else if x > UNIT as i128 {
        UNIT
    } else {
        x as i64
    }
}

/// Half a turn in degrees, as a fixed-point scalar.
pub const HALF_TURN: i64 = 18_000_000;

/// An angle in degrees, brought to within half a turn of zero.
pub open spec fn within_half_turn(degrees: int) -> int {
    if degrees % (2 * HALF_TURN) >= HALF_TURN {
        degrees % (2 * HALF_TURN) - 2 * HALF_TURN
    } else {
        degrees % (2 * HALF_TURN)
    }
}

/// An angle of up to half a turn, from degrees to radians in units of 10⁻⁸.
pub open spec fn radians_fine(degrees: int) -> int {
    (degrees * PI_FINE) / (HALF_TURN as int)
}

/// The sine and the cosine of an angle that is given in degrees, as
/// fixed-point scalars. At the whole multiples of a right angle they are
/// exact: 0, 1 or −1. An angle beyond a right angle is mirrored at the
/// vertical before it is turned.
pub open spec fn sin_cos_spec(degrees: int) -> (int, int) {
    let d = within_half_turn(degrees);
    if d == 0 {
        (0, UNIT as int)
    } else if d == HALF_TURN / 2 {
        (UNIT as int, 0)
    } else if d == -HALF_TURN / 2 {
        (-UNIT, 0)
    } else if d == -HALF_TURN {
        (0, -UNIT)
    } else if d > HALF_TURN / 2 {
        let mirrored = sine_cosine_spec(radians_fine(HALF_TURN - d));
        (mirrored.0, -mirrored.1)
    } else if d < -HALF_TURN / 2 {
        let mirrored = sine_cosine_spec(radians_fine(-HALF_TURN - d));
        (mirrored.0, -mirrored.1)
    } else {
        sine_cosine_spec(radians_fine(d))
    }
}

pub fn sin_cos(degrees: i64) -> (r: (i64, i64))
    ensures
        r.0 == sin_cos_spec(degrees as int).0,
        r.1 == sin_cos_spec(degrees as int).1,
        -UNIT <= r.0 <= UNIT,
        -UNIT <= r.1 <= UNIT,
{
    let d: i64 = bring_within_half_turn(degrees);
    if d == 0 {
        (0, UNIT)
    } else if d == HALF_TURN / 2 {
        (UNIT, 0)
    } else if d == -HALF_TURN / 2 {
        (-UNIT, 0)
    } else if d == -HALF_TURN {
        (0, -UNIT)
    } else if d > HALF_TURN / 2 {
        let (s, c) = sine_cosine(to_radians_fine(HALF_TURN - d));
        (s, -c)
    } else if d < -HALF_TURN / 2 {
        let (s, c) = sine_cosine(to_radians_fine(-HALF_TURN - d));
        (s, -c)
    } else {
        sine_cosine(to_radians_fine(d))
    }
}

/// Computes [`within_half_turn`].
pub fn bring_within_half_turn(degrees: i64) -> (r: i64)
    ensures
        r == within_half_turn(degrees as int),
        -HALF_TURN <= r < HALF_TURN,
{
    let left: i64 = degrees % 36_000_000;
    let whole: i64 = if left < 0 {
        left + 36_000_000
    } else {
        left
    };
    assert(whole == (degrees as int) % 36_000_000);
    if whole >= HALF_TURN {
        whole - 36_000_000
    } else {
        whole
    }
}

/// Computes [`radians_fine`].
pub fn to_radians_fine(degrees: i64) -> (r: i64)
    requires
        -HALF_TURN <= degrees <= HALF_TURN,
    ensures
        r == radians_fine(degrees as int),
        -PI_FINE <= r <= PI_FINE,
{
    proof {
        lemma_floor_div_bounds(degrees * PI_FINE, HALF_TURN as int);
        let q = (degrees * PI_FINE) / (HALF_TURN as int);
        assert(-PI_FINE <= q <= PI_FINE) by (nonlinear_arith)
            requires
                q * HALF_TURN <= degrees * PI_FINE,
                degrees * PI_FINE < (q + 1) * HALF_TURN,
                -HALF_TURN <= degrees <= HALF_TURN,
                HALF_TURN == 18_000_000,
                PI_FINE == 314_159_265,
        ;
    }
    floor_div((degrees as i128) * (PI_FINE as i128), HALF_TURN as i128) as i64
}

/// Half of `x`, rounded towards zero.
pub open spec fn halved_spec(x: int) -> int {
    if x >= 0 {
        x / 2
    } else {
        -((-x) / 2)
    }
}

pub fn halved(x: i64) -> (r: i64)
    ensures
        r == halved_spec(x as int),
{
    x / 2
}

/// The tangent of an angle that is given in degrees, as a fixed-point
/// scalar. At the odd multiples of half a right angle it is exact: 1 or
/// −1. Elsewhere it is the sine over the cosine, so 0 at 0 and at half a
/// turn, and infinite at a right angle.
pub open spec fn tangent_spec(degrees: int) -> int {
    let d = within_half_turn(degrees);
    if d == HALF_TURN / 4 || d == -3 * (HALF_TURN / 4) {
        UNIT as int
    } else if d == -HALF_TURN / 4 || d == 3 * (HALF_TURN / 4) {
        -UNIT
    } else {
        fdiv_spec(sin_cos_spec(degrees).0, sin_cos_spec(degrees).1)
    }
}

pub fn tangent(degrees: i64) -> (r: i64)
    ensures
        r == tangent_spec(degrees as int),
{
    let d: i64 = bring_within_half_turn(degrees);
    if d == HALF_TURN / 4 || d == -3 * (HALF_TURN / 4) {
        UNIT
    } else if d == -HALF_TURN / 4 || d == 3 * (HALF_TURN / 4) {
        -UNIT
    } else {
        let (sine, cosine) = sin_cos(degrees);
        fdiv(sine, cosine)
    }
}

/// The sine, the cosine and the tangent at the angles where they are whole:
/// at no turn, at a right angle to either side and at half a turn, and the
/// tangent at half a right angle.
pub proof fn lemma_whole_angles()
    ensures
        sin_cos_spec(0) == (0int, UNIT as int),
        sin_cos_spec(90 * UNIT) == (UNIT as int, 0int),
        sin_cos_spec(-90 * UNIT) == (-UNIT as int, 0int),
        sin_cos_spec(180 * UNIT) == (0int, -UNIT as int),
        sin_cos_spec(360 * UNIT) == (0int, UNIT as int),
        tangent_spec(0) == 0,
        tangent_spec(180 * UNIT) == 0,
        tangent_spec(45 * UNIT) == UNIT,
        tangent_spec(-45 * UNIT) == -UNIT,
        tangent_spec(90 * UNIT) == INFINITY,
{
}

/// The arc tangent and the arc cosine on the axes.
pub proof fn lemma_angles_of_the_axes(x: int, y: int)
    requires
        x > 0,
        y > 0,
    ensures
        arc_tangent_spec(0, x) == 0,
        arc_tangent_spec(0, -x) == PI,
        arc_tangent_spec(y, 0) == HALF_PI,
        arc_tangent_spec(-y, 0) == -HALF_PI,
        arc_tangent_spec(0, 0) == 0,
        arc_cosine_spec(UNIT as int) == 0,
        arc_cosine_spec(0) == HALF_PI,
        arc_cosine_spec(-UNIT as int) == PI,
{
    lemma_sqrt_exists(0);
    assert(is_sqrt_floor(0, 0));
    lemma_sqrt_floor_unique(0, sqrt_floor(0), 0);
    lemma_sqrt_exists(UNIT * UNIT);
    assert(is_sqrt_floor(UNIT * UNIT, UNIT as int));
    lemma_sqrt_floor_unique(UNIT * UNIT, sqrt_floor(UNIT * UNIT), UNIT as int);
    assert(UNIT * UNIT - (-UNIT) * (-UNIT) == 0) by (nonlinear_arith);
    assert(UNIT * UNIT - UNIT * UNIT == 0);
    assert(UNIT * UNIT - 0 * 0 == UNIT * UNIT);
}

/// Computes [`nearest_spec`].
pub fn nearest(n: i128, d: i128) -> (q: i128)
    requires
        0 < d <= 0x1fff_ffff_ffff_ffff_ffff_ffff_ffff_ffff,
        -0x1fff_ffff_ffff_ffff_ffff_ffff_ffff_ffff <= n <= 0x1fff_ffff_ffff_ffff_ffff_ffff_ffff_ffff,
    ensures
        q == nearest_spec(n as int, d as int),
{
    floor_div(2 * n + d, 2 * d)
}

/// The natural logarithm of 2, in units of 10⁻⁸.
pub const LN2_FINE: i64 = 69_314_718;

/// The natural logarithm of the number of grid steps in a unit, in units
/// of 10⁻⁸.
pub const LN_UNIT_FINE: i64 = 1_151_292_546;

/// How many binary places of a logarithm are taken.
pub const LOG_PLACES: u8 = 24;

/// A positive number doubled until it is at least 2³⁰, with the count of
/// the doublings.
pub open spec fn doubled_up(m: int, count: int) -> (int, int)
    decreases 30 - count,
{
    if m < FINE_ONE && count < 30 {
        doubled_up(2 * m, count + 1)
    } else {
        (m, count)
    }
}

/// The first `places` binary places of the logarithm to the base 2 of
/// `m / 2³⁰`, a number from 1 up to 2, behind the places `acc`: the number
/// is squared for each place, and the place is 1 where the square reaches
/// 2.
pub open spec fn log2_places(m: int, places: int, acc: int) -> int
    decreases places,
{
    if places <= 0 {
        acc
    } else if (m * m) / (FINE_ONE as int) >= 2 * FINE_ONE {
        log2_places((m * m) / (FINE_ONE as int) / 2, places - 1, 2 * acc + 1)
    } else {
        log2_places((m * m) / (FINE_ONE as int), places - 1, 2 * acc)
    }
}

/// The natural logarithm of a positive fixed-point scalar below 2³¹ steps,
/// as a fixed-point scalar: exactly 0 for 1, and elsewhere the logarithm to
/// the base 2, place by place, times the logarithm of 2, rounded to the
/// nearest step.
pub open spec fn ln_spec(u: int) -> int {
    let (m, count) = doubled_up(u, 0);
    let places = log2_places(m, LOG_PLACES as int, 0);
    if u == UNIT {
        0
    } else {
        nearest_spec(
            (30 - count) * LN2_FINE + (places * LN2_FINE) / 0x100_0000 - LN_UNIT_FINE,
            1000,
        )
    }
}

pub fn ln(u: i64) -> (r: i64)
    requires
        0 < u < 0x8000_0000,
    ensures
        r == ln_spec(u as int),
        u == UNIT ==> r == 0,
{
    if u == UNIT {
        return 0;
    }
    let mut m: i64 = u;
    let mut count: i64 = 0;
    proof {
        lemma2_to64();
    }
    while m < FINE_ONE && count < 30
        invariant
            pow2(count as nat) <= m < 0x8000_0000,
            0 <= count <= 30,
            doubled_up(u as int, 0) == doubled_up(m as int, count as int),
        decreases 30 - count,
    {
        proof {
            lemma_pow2_unfold((count + 1) as nat);
        }
        m = 2 * m;
        count = count + 1;
    }
    proof {
        lemma2_to64();
    }
    let mut places: i64 = 0;
    let mut n: u8 = 0;
    let ghost start = m as int;
    while n < LOG_PLACES
        invariant
            n <= LOG_PLACES,
            FINE_ONE <= m < 0x8000_0000,
            0 <= places < pow2(n as nat),
            log2_places(start, LOG_PLACES as int, 0) == log2_places(
                m as int,
                LOG_PLACES - n,
                places as int,
            ),
        decreases LOG_PLACES - n,
    {
        proof {
            lemma2_to64();
            lemma_pow2_strictly_increases(n as nat, 24);
            lemma_pow2_unfold((n + 1) as nat);
            assert(0x4000_0000 * 0x4000_0000 <= m * m < 0x8000_0000 * 0x8000_0000)
                by (nonlinear_arith)
                requires
                    0x4000_0000 <= m < 0x8000_0000,
            ;
            lemma_floor_div_bounds(m * m, FINE_ONE as int);
        }
        let square: i64 = (m * m) / FINE_ONE;
        if square >= 2 * FINE_ONE {
            m = square / 2;
            places = 2 * places + 1;
        } else {
            m = square;
            places = 2 * places;
        }
        n = n + 1;
    }
    proof {
        lemma2_to64();
    }
    let whole: i128 = (30 - count) as i128 * 69_314_718;
    let part: i128 = (places as i128 * 69_314_718) / 0x100_0000;
    let fine: i128 = whole + part - 1_151_292_546;
    nearest(fine, 1000) as i64
}

} // verus!
