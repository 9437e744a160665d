//! Scalar helpers for the fixed-point world model: truncating division and
//! remainder (the semantics of Rust's `/` and `%` on signed integers),
//! flooring division, absolute value, clamping, and an integer square root.

use vstd::prelude::*;
use vstd::arithmetic::div_mod::lemma_fundamental_div_mod;
use vstd::arithmetic::div_mod::lemma_div_is_ordered;
use vstd::arithmetic::div_mod::lemma_div_pos_is_pos;
use vstd::arithmetic::div_mod::lemma_div_nonincreasing;

verus! {

/// Absolute value of a mathematical integer.
pub open spec fn abs_i(a: int) -> int {
    if a >= 0 {
        a
    } else {
        -a
    }
}

/// Truncating (round-toward-zero) division, the behaviour of `/` on `i64`.
/// Division by zero is defined as zero so that the function is total.
pub open spec fn div_t(a: int, b: int) -> int {
    if b == 0 {
        0
    } else if a >= 0 && b > 0 {
        a / b
    } else if a <= 0 && b < 0 {
        (-a) / (-b)
    } else if a < 0 {
        -((-a) / b)
    } else {
        -(a / (-b))
    }
}

/// Remainder matching `div_t`, the behaviour of `%` on `i64`.
pub open spec fn rem_t(a: int, b: int) -> int {
    a - b * div_t(a, b)
}

/// Clamp `x` into the closed interval `[lo, hi]`.
pub open spec fn clamp_s(x: int, lo: int, hi: int) -> int {
    if x < lo {
        lo
    } else if x > hi {
        hi
    } else {
        x
    }
}

/// The magnitude of a truncating quotient never exceeds that of the dividend.
pub proof fn lemma_div_t_nonincreasing(a: int, b: int)
    requires
        b != 0,
    ensures
        abs_i(div_t(a, b)) <= abs_i(a),
{
    if a >= 0 && b > 0 {
        lemma_div_pos_is_pos(a, b);
        lemma_div_nonincreasing(a, b);
    } else if a <= 0 && b < 0 {
        lemma_div_pos_is_pos(-a, -b);
        lemma_div_nonincreasing(-a, -b);
    } else if a < 0 {
        lemma_div_pos_is_pos(-a, b);
        lemma_div_nonincreasing(-a, b);
    } else {
        lemma_div_pos_is_pos(a, -b);
        lemma_div_nonincreasing(a, -b);
    }
}

/// A truncating quotient is bounded by any multiple that bounds the dividend.
pub proof fn lemma_div_t_bound(a: int, b: int, c: int)
    requires
        b > 0,
        c >= 0,
        abs_i(a) <= c * b,
    ensures
        abs_i(div_t(a, b)) <= c,
{
    if a >= 0 {
        lemma_div_pos_is_pos(a, b);
        lemma_div_is_ordered(a, c * b, b);
        vstd::arithmetic::div_mod::lemma_div_multiples_vanish(c, b);
    } else {
        lemma_div_pos_is_pos(-a, b);
        lemma_div_is_ordered(-a, c * b, b);
        vstd::arithmetic::div_mod::lemma_div_multiples_vanish(c, b);
    }
}

/// Bound on the magnitude of a product from bounds on its factors.
pub proof fn lemma_abs_mul(a: int, b: int, ca: int, cb: int)
    requires
        abs_i(a) <= ca,
        abs_i(b) <= cb,
    ensures
        abs_i(a * b) <= ca * cb,
{
    assert(abs_i(a * b) <= ca * cb) by (nonlinear_arith)
        requires
            -ca <= a <= ca,
            -cb <= b <= cb;
}

/// A product with a zero factor is zero.
pub proof fn lemma_mul_zero(a: int, b: int)
    requires
        b == 0,
    ensures
        a * b == 0,
        b * a == 0,
{
    assert(a * b == 0 && b * a == 0) by (nonlinear_arith)
        requires
            b == 0;
}

/// Zero divided by anything is zero.
pub proof fn lemma_div_t_zero(b: int)
    ensures
        div_t(0, b) == 0,
{
    if b > 0 {
        vstd::arithmetic::div_mod::lemma_div_of0(b);
    } else if b < 0 {
        vstd::arithmetic::div_mod::lemma_div_of0(-b);
    }
}

/// A flooring quotient is bounded by any multiple that bounds the dividend.
pub proof fn lemma_floor_div_bound(a: int, b: int, c: int)
    requires
        b > 0,
        c >= 0,
        abs_i(a) <= c * b,
    ensures
        abs_i(a / b) <= c,
{
    vstd::arithmetic::div_mod::lemma_div_multiples_vanish(c, b);
    lemma_div_is_ordered(a, c * b, b);
    assert((-c) * b == -(c * b)) by (nonlinear_arith);
    vstd::arithmetic::div_mod::lemma_div_multiples_vanish(-c, b);
    lemma_div_is_ordered((-c) * b, a, b);
}

/// Flooring division of `a` by a positive `b` (the mathematical quotient).
pub fn floor_div(a: i64, b: i64) -> (r: i64)
    requires
        b > 0,
        i64::MIN + b < a,
    ensures
        r == a as int / b as int,
        abs_i(r as int) <= abs_i(a as int) + 1,
{
    proof {
        lemma_fundamental_div_mod(a as int, b as int);
        if a >= 0 {
            lemma_div_pos_is_pos(a as int, b as int);
            lemma_div_nonincreasing(a as int, b as int);
        } else {
            lemma_fundamental_div_mod(-(a as int), b as int);
            lemma_div_pos_is_pos(-(a as int), b as int);
            lemma_div_nonincreasing(-(a as int), b as int);
            let q = (-(a as int)) / (b as int);
            assert((b as int) * (-q) == -((b as int) * q)) by (nonlinear_arith);
            assert((b as int) * (-q - 1) == -((b as int) * q) - b) by (nonlinear_arith);
            if (-(a as int)) % (b as int) == 0 {
                vstd::arithmetic::div_mod::lemma_div_multiples_vanish(-q, b as int);
            } else {
                assert(a as int == (b as int) * (-q - 1) + (b as int - (-(a as int)) % (
                b as int)));
                vstd::arithmetic::div_mod::lemma_fundamental_div_mod_converse(
                    a as int,
                    b as int,
                    -q - 1,
                    b as int - (-(a as int)) % (b as int),
                );
            }
        }
    }
    if a >= 0 {
        a / b
    } else {
        let q: i64 = -((-a) / b);
        if (-a) % b == 0 {
            q
        } else {
            q - 1
        }
    }
}

/// Truncating division of `a` by a positive `b`.
pub fn div_fp(a: i64, b: i64) -> (r: i64)
    requires
        b > 0,
        a != i64::MIN,
    ensures
        r == div_t(a as int, b as int),
        abs_i(r as int) <= abs_i(a as int),
{
    proof {
        lemma_div_t_nonincreasing(a as int, b as int);
    }
    a / b
}

/// Truncating remainder of `a` by a positive `b`.
pub fn rem_fp(a: i64, b: i64) -> (r: i64)
    requires
        b > 0,
        a != i64::MIN,
    ensures
        r == rem_t(a as int, b as int),
        abs_i(r as int) < b,
{
    proof {
        let ai = a as int;
        let bi = b as int;
        if a < 0 {
            lemma_fundamental_div_mod(-ai, bi);
            lemma_div_pos_is_pos(-ai, bi);
            let q = (-ai) / bi;
            assert(bi * (-q) == -(bi * q)) by (nonlinear_arith);
            assert(rem_t(ai, bi) == ai + bi * q);
        } else {
            lemma_fundamental_div_mod(ai, bi);
        }
    }
    a % b
}

/// Absolute value; the minimum is excluded so the result fits.
pub fn abs_fp(a: i64) -> (r: i64)
    requires
        a != i64::MIN,
    ensures
        r == abs_i(a as int),
{
    if a >= 0 {
        a
    } else {
        -a
    }
}

/// Clamp `x` into `[lo, hi]`.
pub fn clamp_fp(x: i64, lo: i64, hi: i64) -> (r: i64)
    requires
        lo <= hi,
    ensures
        r == clamp_s(x as int, lo as int, hi as int),
{
    if x < lo {
        lo
    } else if x > hi {
        hi
    } else {
        x
    }
}

/// Floor of the square root of a natural number.
pub open spec fn sqrt_floor(n: nat) -> nat
    decreases n,
{
    if n == 0 {
        0
    } else {
        let r = sqrt_floor((n - 1) as nat);
        if (r + 1) * (r + 1) <= n {
            r + 1
        } else {
            r
        }
    }
}

/// `sqrt_floor(n)` is the unique `r` with `r * r <= n < (r + 1) * (r + 1)`.
pub proof fn lemma_sqrt_floor_bounds(n: nat)
    ensures
        sqrt_floor(n) * sqrt_floor(n) <= n,
        n < (sqrt_floor(n) + 1) * (sqrt_floor(n) + 1),
        sqrt_floor(n) <= n,
    decreases n,
{
    if n > 0 {
        lemma_sqrt_floor_bounds((n - 1) as nat);
        let r = sqrt_floor((n - 1) as nat);
        assert(r * r <= n - 1);
        if (r + 1) * (r + 1) <= n {
            assert(sqrt_floor(n) == r + 1);
            assert(n < (sqrt_floor(n) + 1) * (sqrt_floor(n) + 1)) by (nonlinear_arith)
                requires
                    sqrt_floor(n) == r + 1,
                    n <= (r + 1) * (r + 1),
                    r >= 0;
        } else {
            assert(sqrt_floor(n) == r);
            assert(n < (sqrt_floor(n) + 1) * (sqrt_floor(n) + 1)) by (nonlinear_arith)
                requires
                    sqrt_floor(n) == r,
                    n < (r + 1) * (r + 1);
        }
    } else {
        assert(sqrt_floor(0) == 0);
        assert(n < (sqrt_floor(n) + 1) * (sqrt_floor(n) + 1)) by (nonlinear_arith)
            requires
                sqrt_floor(n) == 0,
                n == 0;
    }
}

/// Any `r` satisfying the square-root bracketing equals `sqrt_floor(n)`.
pub proof fn lemma_sqrt_unique(n: nat, r: nat)
    requires
        r * r <= n,
        n < (r + 1) * (r + 1),
    ensures
        r == sqrt_floor(n),
{
    lemma_sqrt_floor_bounds(n);
    let s = sqrt_floor(n);
    if r < s {
        assert((r + 1) * (r + 1) <= s * s) by (nonlinear_arith)
            requires
                r + 1 <= s,
                r >= 0;
    }
    if s < r {
        assert((s + 1) * (s + 1) <= r * r) by (nonlinear_arith)
            requires
                s + 1 <= r,
                s >= 0;
    }
}

/// The square root of `x * x + e` is at least `x`.
pub proof fn lemma_sqrt_lower(x: nat, e: nat)
    ensures
        sqrt_floor(x * x + e) >= x,
{
    let n = (x * x + e) as nat;
    lemma_sqrt_floor_bounds(n);
    let s = sqrt_floor(n);
    if s < x {
        assert((s + 1) * (s + 1) <= x * x) by (nonlinear_arith)
            requires
                s + 1 <= x,
                s >= 0;
    }
}

/// Any `u64` lies strictly below the square of `2^32`.
proof fn lemma_u64_below_cap_square(n: u64)
    ensures
        (4294967296 as nat) * (4294967296 as nat) > n as nat,
{
    assert((4294967296 as nat) * (4294967296 as nat) > 0xffff_ffff_ffff_ffff) by (nonlinear_arith);
}

/// Integer square root by bisection.
pub fn isqrt(n: u64) -> (r: u64)
    ensures
        r as nat == sqrt_floor(n as nat),
        r < 4294967296,
{
    proof {
        lemma_sqrt_floor_bounds(n as nat);
    }
    if n == 0 {
        proof {
            lemma_sqrt_unique(n as nat, 0);
        }
        return 0;
    }
    let mut lo: u64 = 1;
    let mut hi: u64 = 4294967296;
    proof {
        lemma_u64_below_cap_square(n);
    }
    while lo + 1 < hi
        invariant
            1 <= lo < hi <= 4294967296,
            (lo as nat) * (lo as nat) <= n as nat,
            (hi as nat) * (hi as nat) > n as nat,
        decreases hi - lo,
    {
        let mid: u64 = lo + (hi - lo) / 2;
        assert(lo < mid < hi);
        let q: u64 = n / mid;
        if mid <= q {
            proof {
                lemma_fundamental_div_mod(n as int, mid as int);
                assert((mid as nat) * (mid as nat) <= n as nat) by (nonlinear_arith)
                    requires
                        mid as int <= n as int / (mid as int),
                        n as int == (mid as int) * (n as int / (mid as int)) + n as int % (
                        mid as int),
                        n as int % (mid as int) >= 0,
                        mid > 0;
            }
            lo = mid;
        } else {
            proof {
                lemma_fundamental_div_mod(n as int, mid as int);
                assert((mid as nat) * (mid as nat) > n as nat) by (nonlinear_arith)
                    requires
                        mid as int > n as int / (mid as int),
                        n as int == (mid as int) * (n as int / (mid as int)) + n as int % (
                        mid as int),
                        n as int % (mid as int) < mid as int,
                        mid > 0;
            }
            hi = mid;
        }
    }
    proof {
        lemma_sqrt_unique(n as nat, lo as nat);
    }
    lo
}

} // verus!
