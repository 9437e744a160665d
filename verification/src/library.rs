//! 2D vector mathematics over fixed-point scalars.
//!
//! A `Vec2` holds a pair of fixed-point components (`SCALE` ticks per world
//! unit).  `normalize` and `find_normal` return vectors whose components are
//! measured in fractions of `SCALE`, so a unit vector has components in
//! `[-SCALE, SCALE]`.  A degenerate (zero) input yields the zero vector
//! rather than an error.

use vstd::prelude::*;
use crate::num::abs_i;
use crate::num::div_t;
use crate::num::sqrt_floor;
use crate::num::div_fp;
use crate::num::isqrt;
use crate::num::lemma_sqrt_lower;
use crate::num::lemma_sqrt_floor_bounds;
use crate::num::lemma_div_t_bound;
use crate::SCALE;
use crate::COORD_LIMIT;

verus! {

/// A 2D vector of fixed-point scalars.
#[derive(Clone, Copy, PartialEq, Eq, Structural, Debug)]
pub struct Vec2 {
    pub x: i64,
    pub y: i64,
}

/// Components small enough that a dot product of two such vectors fits `i64`.
pub open spec fn dot_safe(v: Vec2) -> bool {
    &&& abs_i(v.x as int) < 0x8000_0000
    &&& abs_i(v.y as int) < 0x8000_0000
}

/// Components within the stored-coordinate range.
pub open spec fn coord_range(v: Vec2) -> bool {
    &&& abs_i(v.x as int) <= COORD_LIMIT
    &&& abs_i(v.y as int) <= COORD_LIMIT
}

/// Components within `[-SCALE, SCALE]`, as `normalize` returns.
pub open spec fn unit_range(v: Vec2) -> bool {
    &&& abs_i(v.x as int) <= SCALE
    &&& abs_i(v.y as int) <= SCALE
}

/// Saturate a coordinate into the stored range.
pub open spec fn cap_coord(x: int) -> int {
    crate::num::clamp_s(x, -COORD_LIMIT as int, COORD_LIMIT as int)
}

/// Saturate a coordinate into the stored range.
pub fn cap_coord_fp(x: i64) -> (r: i64)
    ensures
        r == cap_coord(x as int),
        abs_i(r as int) <= COORD_LIMIT,
{
    crate::num::clamp_fp(x, -COORD_LIMIT, COORD_LIMIT)
}

/// Mathematical dot product.
pub open spec fn dot_spec(u: Vec2, v: Vec2) -> int {
    u.x * v.x + u.y * v.y
}

/// Fixed-point magnitude: the integer square root of `x*x + y*y`.
pub open spec fn mag_spec(v: Vec2) -> int {
    sqrt_floor((v.x * v.x + v.y * v.y) as nat) as int
}

/// Fixed-point normalization: each component is scaled by `SCALE` and divided
/// by the magnitude; the zero vector maps to itself.
pub open spec fn normalize_spec(v: Vec2) -> Vec2 {
    let m = mag_spec(v);
    if m == 0 {
        Vec2 { x: 0, y: 0 }
    } else {
        Vec2 { x: div_t(v.x * SCALE, m) as i64, y: div_t(v.y * SCALE, m) as i64 }
    }
}

/// Rotation by 90 degrees counter-clockwise.
pub open spec fn perp(v: Vec2) -> Vec2 {
    Vec2 { x: -v.y as i64, y: v.x }
}

/// The vector from `x` to `y`.
pub open spec fn sub_spec(x: Vec2, y: Vec2) -> Vec2 {
    Vec2 { x: (y.x - x.x) as i64, y: (y.y - x.y) as i64 }
}

/// The unit normal of the segment from `x` to `y`.
pub open spec fn find_normal_spec(x: Vec2, y: Vec2) -> Vec2 {
    perp(normalize_spec(sub_spec(x, y)))
}

/// The magnitude of a vector is at least the magnitude of each component.
pub proof fn lemma_mag_dominates(v: Vec2)
    requires
        dot_safe(v),
    ensures
        mag_spec(v) >= abs_i(v.x as int),
        mag_spec(v) >= abs_i(v.y as int),
        mag_spec(v) >= 0,
        mag_spec(v) == 0 ==> v.x == 0 && v.y == 0,
{
    let ax = abs_i(v.x as int) as nat;
    let ay = abs_i(v.y as int) as nat;
    assert(v.x * v.x == ax * ax) by (nonlinear_arith)
        requires
            ax == v.x as int || ax == -(v.x as int);
    assert(v.y * v.y == ay * ay) by (nonlinear_arith)
        requires
            ay == v.y as int || ay == -(v.y as int);
    lemma_sqrt_lower(ax, (ay * ay) as nat);
    assert(ax * ax + ay * ay == ay * ay + ax * ax);
    lemma_sqrt_lower(ay, (ax * ax) as nat);
    assert((v.x * v.x + v.y * v.y) as nat == ax * ax + ay * ay);
}

/// A normalized vector has components within `[-SCALE, SCALE]`.
pub proof fn lemma_normalize_unit(v: Vec2)
    requires
        dot_safe(v),
    ensures
        unit_range(normalize_spec(v)),
{
    let m = mag_spec(v);
    lemma_mag_dominates(v);
    if m != 0 {
        assert(abs_i(v.x * SCALE) <= SCALE * m) by (nonlinear_arith)
            requires
                abs_i(v.x as int) <= m,
                SCALE == 1024;
        lemma_div_t_bound(v.x * SCALE, m, SCALE as int);
        assert(abs_i(v.y * SCALE) <= SCALE * m) by (nonlinear_arith)
            requires
                abs_i(v.y as int) <= m,
                SCALE == 1024;
        lemma_div_t_bound(v.y * SCALE, m, SCALE as int);
    }
}

/// Only the zero vector normalizes to the zero vector.
pub proof fn lemma_normalize_zero(v: Vec2)
    requires
        dot_safe(v),
        normalize_spec(v) == (Vec2 { x: 0i64, y: 0i64 }),
    ensures
        v == (Vec2 { x: 0i64, y: 0i64 }),
{
    let m = mag_spec(v);
    lemma_mag_dominates(v);
    if m != 0 {
        let ax = abs_i(v.x as int);
        let ay = abs_i(v.y as int);
        // the magnitude is at most |x| + |y|
        assert(v.x * v.x >= 0) by (nonlinear_arith);
        assert(v.y * v.y >= 0) by (nonlinear_arith);
        let n = (v.x * v.x + v.y * v.y) as nat;
        crate::num::lemma_sqrt_floor_bounds(n);
        assert(n < (ax + ay + 1) * (ax + ay + 1)) by (nonlinear_arith)
            requires
                ax == v.x as int || ax == -(v.x as int),
                ay == v.y as int || ay == -(v.y as int),
                ax >= 0,
                ay >= 0,
                n == v.x * v.x + v.y * v.y;
        if m > ax + ay {
            assert((ax + ay + 1) * (ax + ay + 1) <= m * m) by (nonlinear_arith)
                requires
                    ax + ay + 1 <= m,
                    ax >= 0,
                    ay >= 0;
        }
        assert(m <= ax + ay);
        // a zero quotient means the scaled component is below the magnitude
        if v.x != 0 || v.y != 0 {
            if ax * SCALE >= m {
                if v.x >= 0 {
                    vstd::arithmetic::div_mod::lemma_div_non_zero(v.x * SCALE, m);
                } else {
                    vstd::arithmetic::div_mod::lemma_div_non_zero(-(v.x as int) * SCALE, m);
                    assert(-(v.x as int) * SCALE == -(v.x * SCALE)) by (nonlinear_arith);
                }
                assert(false);
            }
            if ay * SCALE >= m {
                if v.y >= 0 {
                    vstd::arithmetic::div_mod::lemma_div_non_zero(v.y * SCALE, m);
                } else {
                    vstd::arithmetic::div_mod::lemma_div_non_zero(-(v.y as int) * SCALE, m);
                    assert(-(v.y as int) * SCALE == -(v.y * SCALE)) by (nonlinear_arith);
                }
                assert(false);
            }
            assert(ax * SCALE < m && ay * SCALE < m);
            assert((ax + ay) * SCALE < 2 * m) by (nonlinear_arith)
                requires
                    ax * SCALE < m,
                    ay * SCALE < m,
                    SCALE == 1024;
            assert(2 * m <= 2 * (ax + ay));
            assert((ax + ay) * SCALE < 2 * (ax + ay));
            assert(false) by (nonlinear_arith)
                requires
                    (ax + ay) * SCALE < 2 * (ax + ay),
                    ax + ay >= 1,
                    SCALE == 1024;
        }
    }
}

/// The magnitude of a dot-safe vector fits well below `2^32`.
pub proof fn lemma_mag_bound(v: Vec2)
    requires
        dot_safe(v),
    ensures
        0 <= mag_spec(v) < 0x1_0000_0000,
{
    let n = (v.x * v.x + v.y * v.y) as nat;
    crate::num::lemma_abs_mul(v.x as int, v.x as int, 0x8000_0000, 0x8000_0000);
    crate::num::lemma_abs_mul(v.y as int, v.y as int, 0x8000_0000, 0x8000_0000);
    assert(v.x * v.x >= 0) by (nonlinear_arith);
    assert(v.y * v.y >= 0) by (nonlinear_arith);
    crate::num::lemma_sqrt_floor_bounds(n);
    let s = crate::num::sqrt_floor(n);
    if s >= 0x1_0000_0000 {
        assert(s * s >= 0x1_0000_0000 * 0x1_0000_0000) by (nonlinear_arith)
            requires
                s >= 0x1_0000_0000;
    }
}

/// Bound on a dot product from bounds on the vectors' components.
pub proof fn lemma_dot_bound(u: Vec2, v: Vec2, cu: int, cv: int)
    requires
        abs_i(u.x as int) <= cu,
        abs_i(u.y as int) <= cu,
        abs_i(v.x as int) <= cv,
        abs_i(v.y as int) <= cv,
    ensures
        abs_i(dot_spec(u, v)) <= 2 * cu * cv,
{
    crate::num::lemma_abs_mul(u.x as int, v.x as int, cu, cv);
    crate::num::lemma_abs_mul(u.y as int, v.y as int, cu, cv);
    assert(2 * cu * cv == cu * cv + cu * cv) by (nonlinear_arith);
}

/// Computes the dot product of two 2D vectors.
pub fn dot(vec1: Vec2, vec2: Vec2) -> (r: i64)
    requires
        dot_safe(vec1),
        dot_safe(vec2),
    ensures
        r == dot_spec(vec1, vec2),
        abs_i(r as int) < 0x8000_0000_0000_0000,
{
    proof {
        assert(abs_i(vec1.x * vec2.x) < 0x4000_0000_0000_0000) by (nonlinear_arith)
            requires
                abs_i(vec1.x as int) < 0x8000_0000,
                abs_i(vec2.x as int) < 0x8000_0000;
        assert(abs_i(vec1.y * vec2.y) < 0x4000_0000_0000_0000) by (nonlinear_arith)
            requires
                abs_i(vec1.y as int) < 0x8000_0000,
                abs_i(vec2.y as int) < 0x8000_0000;
    }
    vec1.x * vec2.x + vec1.y * vec2.y
}

/// Calculates the magnitude (length) of a 2D vector.
pub fn get_magnitude(v: Vec2) -> (r: i64)
    requires
        dot_safe(v),
    ensures
        r == mag_spec(v),
        0 <= r < 4294967296,
{
    proof {
        assert(0 <= v.x * v.x < 0x4000_0000_0000_0000) by (nonlinear_arith)
            requires
                abs_i(v.x as int) < 0x8000_0000;
        assert(0 <= v.y * v.y < 0x4000_0000_0000_0000) by (nonlinear_arith)
            requires
                abs_i(v.y as int) < 0x8000_0000;
    }
    let xx: i64 = v.x * v.x;
    let yy: i64 = v.y * v.y;
    let s: u64 = (xx as u64) + (yy as u64);
    let r: u64 = isqrt(s);
    r as i64
}

/// Normalizes a 2D vector to unit length (`SCALE` ticks); returns the zero
/// vector when the input has zero magnitude.
pub fn normalize(v: Vec2) -> (r: Vec2)
    requires
        dot_safe(v),
    ensures
        r == normalize_spec(v),
        unit_range(r),
{
    proof {
        lemma_normalize_unit(v);
        lemma_mag_dominates(v);
    }
    let mag: i64 = get_magnitude(v);
    if mag == 0 {
        return Vec2 { x: 0, y: 0 };
    }
    proof {
        assert(abs_i(v.x * SCALE) <= 0x8000_0000 * 1024) by (nonlinear_arith)
            requires
                abs_i(v.x as int) < 0x8000_0000,
                SCALE == 1024;
        assert(abs_i(v.y * SCALE) <= 0x8000_0000 * 1024) by (nonlinear_arith)
            requires
                abs_i(v.y as int) < 0x8000_0000,
                SCALE == 1024;
    }
    let sx: i64 = v.x * SCALE;
    let sy: i64 = v.y * SCALE;
    Vec2 { x: div_fp(sx, mag), y: div_fp(sy, mag) }
}

/// Finds the vector from point `x` to point `y`.
pub fn find_vector(x: Vec2, y: Vec2) -> (r: Vec2)
    requires
        coord_range(x),
        coord_range(y),
    ensures
        r == sub_spec(x, y),
        dot_safe(r),
{
    Vec2 { x: y.x - x.x, y: y.y - x.y }
}

/// Finds the unit normal (perpendicular) vector to the segment from `x` to
/// `y`: the normalized direction rotated 90 degrees counter-clockwise.
pub fn find_normal(x: Vec2, y: Vec2) -> (r: Vec2)
    requires
        coord_range(x),
        coord_range(y),
    ensures
        r == find_normal_spec(x, y),
        unit_range(r),
{
    let v = normalize(find_vector(x, y));
    Vec2 { x: -v.y, y: v.x }
}

} // verus!
