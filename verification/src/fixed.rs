//! Signed 16.16 fixed-point arithmetic on `i32`.
//!
//! All operations round toward negative infinity and clamp to the range of
//! `i32` instead of wrapping.

use vstd::arithmetic::div_mod::lemma_fundamental_div_mod;
use vstd::arithmetic::div_mod::lemma_fundamental_div_mod_converse;
use vstd::prelude::*;

verus! {

/// The fixed-point representation of 1.0.
pub const ONE: i32 = 65536;

/// The fixed-point representation of 0.5.
pub const HALF: i32 = 32768;

/// Largest magnitude that [`div_floor`] accepts for either operand.
pub const DIV_LIMIT: i128 = 0x1000_0000_0000_0000_0000_0000_0000_0000;

/// The quotient of `a` by a nonzero `b`, rounded toward negative infinity.
pub open spec fn floor_div(a: int, b: int) -> int {
    if b > 0 {
        a / b
    } else {
        (-a) / (-b)
    }
}

/// `v` clamped to the range of `i32`.
pub open spec fn saturate(v: int) -> i32 {
    if v < i32::MIN {
        i32::MIN
    } else if v > i32::MAX {
        i32::MAX
    } else {
        v as i32
    }
}

/// The fixed-point product: `a * b / 65536`, rounded down and clamped.
pub open spec fn spec_fixed_mul(a: i32, b: i32) -> i32 {
    saturate(floor_div(a * b, ONE as int))
}

/// The fixed-point quotient: `a * 65536 / b`, rounded down and clamped.
/// Division by zero yields the extreme value with the sign of `a`.
pub open spec fn spec_fixed_div(a: i32, b: i32) -> i32 {
    if b == 0 {
        if a > 0 {
            i32::MAX
        } else if a < 0 {
            i32::MIN
        } else {
            0
        }
    } else {
        saturate(floor_div(a * ONE, b as int))
    }
}

/// The negation of `a`, clamped: the most negative value maps to the most
/// positive one.
pub open spec fn spec_fixed_neg(a: i32) -> i32 {
    saturate(-a)
}

/// Floor division is characterised by its remainder: `q` is the floor of
/// `a / b` exactly when `a - q * b` lies between zero and `b`.
pub proof fn lemma_floor_div_unique(a: int, b: int, q: int)
    requires
        b > 0,
        q * b <= a < q * b + b,
    ensures
        floor_div(a, b) == q,
{
    lemma_fundamental_div_mod_converse(a, b, q, a - q * b);
}

/// The defining bounds of floor division by a positive divisor.
pub proof fn lemma_floor_div_bounds(a: int, b: int)
    requires
        b > 0,
    ensures
        floor_div(a, b) * b <= a < floor_div(a, b) * b + b,
{
    lemma_fundamental_div_mod(a, b);
    assert(b * (a / b) == (a / b) * b) by (nonlinear_arith);
}

/// Floor division of `a` by a nonzero `b`.
pub fn div_floor(a: i128, b: i128) -> (q: i128)
    requires
        b != 0,
        -DIV_LIMIT <= a <= DIV_LIMIT,
        -DIV_LIMIT <= b <= DIV_LIMIT,
    ensures
        q == floor_div(a as int, b as int),
{
    let (n, d): (i128, i128) = if b < 0 {
        (-a, -b)
    } else {
        (a, b)
    };
    if n >= 0 {
        n / d
    } else {
        let m: i128 = -n + d - 1;
        let q: i128 = m / d;
        proof {
            lemma_fundamental_div_mod(m as int, d as int);
            assert(d * (m / d) == (m / d) * d) by (nonlinear_arith);
            assert((-q) * d == -(q * d)) by (nonlinear_arith);
            lemma_floor_div_unique(n as int, d as int, -(q as int));
        }
        -q
    }
}

/// Clamps a wide intermediate result to `i32`.
pub fn saturate_i128(v: i128) -> (r: i32)
    ensures
        r == saturate(v as int),
{
    if v < -2147483648 {
        -2147483648
    } else if v > 2147483647 {
        2147483647
    } else {
        v as i32
    }
}

/// Multiplies two fixed-point numbers.
#[verifier::when_used_as_spec(spec_fixed_mul)]
pub fn fixed_mul(a: i32, b: i32) -> (r: i32)
    ensures
        r == spec_fixed_mul(a, b),
{
    let wide_a: i128 = a as i128;
    let wide_b: i128 = b as i128;
    assert(-0x4000_0000_0000_0000 <= wide_a * wide_b <= 0x4000_0000_0000_0000)
        by (nonlinear_arith)
        requires
            -0x8000_0000 <= wide_a <= 0x8000_0000,
            -0x8000_0000 <= wide_b <= 0x8000_0000,
    ;
    let product: i128 = wide_a * wide_b;
    saturate_i128(div_floor(product, 65536))
}

/// Divides two fixed-point numbers.
#[verifier::when_used_as_spec(spec_fixed_div)]
pub fn fixed_div(a: i32, b: i32) -> (r: i32)
    ensures
        r == spec_fixed_div(a, b),
{
    if b == 0 {
        if a > 0 {
            2147483647
        } else if a < 0 {
            -2147483648
        } else {
            0
        }
    } else {
        let scaled: i128 = (a as i128) * 65536;
        saturate_i128(div_floor(scaled, b as i128))
    }
}

/// Negates a fixed-point number.
#[verifier::when_used_as_spec(spec_fixed_neg)]
pub fn fixed_neg(a: i32) -> (r: i32)
    ensures
        r == spec_fixed_neg(a),
{
    if a == -2147483648 {
        2147483647
    } else {
        -a
    }
}

/// The integer square root of `n`: the largest `r` with `r * r <= n`.
pub open spec fn spec_isqrt(n: nat) -> nat
    decreases n,
{
    if n == 0 {
        0
    } else {
        let r = spec_isqrt((n - 1) as nat);
        if (r + 1) * (r + 1) <= n {
            r + 1
        } else {
            r
        }
    }
}

/// The square root brackets its argument between two consecutive squares.
pub proof fn lemma_isqrt_bounds(n: nat)
    ensures
        spec_isqrt(n) * spec_isqrt(n) <= n < (spec_isqrt(n) + 1) * (spec_isqrt(n) + 1),
    decreases n,
{
    let s = spec_isqrt(n);
    if n == 0 {
        assert(s * s == 0 && (s + 1) * (s + 1) == 1) by (nonlinear_arith)
            requires
                s == 0,
        ;
    } else {
        let r = spec_isqrt((n - 1) as nat);
        lemma_isqrt_bounds((n - 1) as nat);
        if (r + 1) * (r + 1) <= n {
            assert(s == r + 1);
            assert(s * s < (s + 1) * (s + 1)) by (nonlinear_arith)
                requires
                    s >= 0,
            ;
        } else {
            assert(s == r);
        }
    }
}

/// Only one number is bracketed that way.
pub proof fn lemma_isqrt_unique(n: nat, r: nat)
    requires
        r * r <= n < (r + 1) * (r + 1),
    ensures
        spec_isqrt(n) == r,
{
    let s = spec_isqrt(n);
    lemma_isqrt_bounds(n);
    if r < s {
        assert((r + 1) * (r + 1) <= s * s) by (nonlinear_arith)
            requires
                r + 1 <= s,
        ;
    } else if s < r {
        assert((s + 1) * (s + 1) <= r * r) by (nonlinear_arith)
            requires
                s + 1 <= r,
        ;
    }
}

/// Computes the integer square root by bisection.
#[verifier::when_used_as_spec(spec_isqrt_u128)]
pub fn isqrt(n: u128) -> (r: u64)
    ensures
        r == spec_isqrt(n as nat),
{
    let mut lo: u128 = 0;
    let mut hi: u128 = 0x1_0000_0000_0000_0000;
    assert(hi * hi > n) by (nonlinear_arith)
        requires
            hi == 0x1_0000_0000_0000_0000,
            n <= u128::MAX,
    ;
    while hi - lo > 1
        invariant
            lo < hi <= 0x1_0000_0000_0000_0000,
            lo * lo <= n < hi * hi,
        decreases hi - lo,
    {
        let mid: u128 = lo + (hi - lo) / 2;
        assert(mid * mid <= 0xffff_ffff_ffff_ffff * 0xffff_ffff_ffff_ffff) by (nonlinear_arith)
            requires
                0 <= mid <= 0xffff_ffff_ffff_ffff,
        ;
        if mid * mid <= n {
            lo = mid;
        } else {
            hi = mid;
        }
    }
    proof {
        lemma_isqrt_unique(n as nat, lo as nat);
    }
    lo as u64
}

/// The integer square root as a function of the machine integer.
pub open spec fn spec_isqrt_u128(n: u128) -> u64 {
    spec_isqrt(n as nat) as u64
}

/// A product is no larger in magnitude than the product of the bounds of its
/// factors.
pub proof fn lemma_mul_bounded(a: int, b: int, bound_a: int, bound_b: int)
    by (nonlinear_arith)
    requires
        -bound_a <= a <= bound_a,
        -bound_b <= b <= bound_b,
    ensures
        -(bound_a * bound_b) <= a * b <= bound_a * bound_b,
{
}

/// The exact product of two 64-bit numbers.
pub fn wide_mul(a: i64, b: i64) -> (r: i128)
    ensures
        r == a * b,
{
    proof {
        lemma_mul_bounded(a as int, b as int, 0x8000_0000_0000_0000, 0x8000_0000_0000_0000);
    }
    (a as i128) * (b as i128)
}

} // verus!
