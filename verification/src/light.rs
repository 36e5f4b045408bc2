//! The light source and the flat lighting factor of a triangle.

use crate::fixed::div_floor;
use crate::fixed::floor_div;
use crate::fixed::isqrt;
use crate::fixed::lemma_isqrt_bounds;
use crate::fixed::lemma_mul_bounded;
use crate::fixed::spec_isqrt;
use crate::fixed::wide_mul;
use crate::fixed::ONE;
use crate::vector::Vector3;
use crate::vertex::Vertex;
use vstd::prelude::*;

verus! {

/// A point light.
#[derive(Clone, Copy, Debug, PartialEq, Eq, Structural)]
pub struct Light {
    pub position: Vector3,
}

/// The dot product of two integer vectors.
pub open spec fn dot3(a: (int, int, int), b: (int, int, int)) -> int {
    a.0 * b.0 + a.1 * b.1 + a.2 * b.2
}

/// The sum of the three normals a triangle is lit with. It points the same
/// way as their average.
pub open spec fn normal_sum(v1: Vertex, v2: Vertex, v3: Vertex) -> (int, int, int) {
    (
        v1.transformed_normal.x + v2.transformed_normal.x + v3.transformed_normal.x,
        v1.transformed_normal.y + v2.transformed_normal.y + v3.transformed_normal.y,
        v1.transformed_normal.z + v2.transformed_normal.z + v3.transformed_normal.z,
    )
}

/// Three times the vector from the centroid of the triangle to the light.
pub open spec fn toward_light(light: Light, v1: Vertex, v2: Vertex, v3: Vertex) -> (
    int,
    int,
    int,
) {
    (
        3 * light.position.x - (v1.position.x + v2.position.x + v3.position.x),
        3 * light.position.y - (v1.position.y + v2.position.y + v3.position.y),
        3 * light.position.z - (v1.position.z + v2.position.z + v3.position.z),
    )
}

/// The cosine of the angle between `n` and `l` as a fixed-point number,
/// clamped to the interval from zero to one. The lengths of both vectors
/// are rounded down to whole numbers; a vector of length zero gives zero.
pub open spec fn clamped_cosine(n: (int, int, int), l: (int, int, int)) -> i32 {
    let d = dot3(n, l);
    let nn = dot3(n, n);
    let ll = dot3(l, l);
    if d <= 0 || nn <= 0 || ll <= 0 {
        0
    } else {
        let q = floor_div(ONE * d, (spec_isqrt(nn as nat) * spec_isqrt(ll as nat)) as int);
        if q > ONE {
            ONE
        } else {
            q as i32
        }
    }
}

impl Light {
    pub fn new(position: Vector3) -> (light: Light)
        ensures
            light == (Light { position }),
    {
        Light { position }
    }

    /// The flat lighting factor of the triangle `v1 v2 v3`: the cosine of the
    /// angle between its averaged normal and the direction from its centroid
    /// to the light, never negative.
    pub open spec fn spec_intensity(self, v1: Vertex, v2: Vertex, v3: Vertex) -> i32 {
        clamped_cosine(normal_sum(v1, v2, v3), toward_light(self, v1, v2, v3))
    }

    /// Computes the lighting factor that the whole triangle is shaded with.
    pub fn intensity(&self, v1: &Vertex, v2: &Vertex, v3: &Vertex) -> (factor: i32)
        ensures
            factor == self.spec_intensity(*v1, *v2, *v3),
            0 <= factor <= ONE,
    {
        let nx: i64 = v1.transformed_normal.x as i64 + v2.transformed_normal.x as i64
            + v3.transformed_normal.x as i64;
        let ny: i64 = v1.transformed_normal.y as i64 + v2.transformed_normal.y as i64
            + v3.transformed_normal.y as i64;
        let nz: i64 = v1.transformed_normal.z as i64 + v2.transformed_normal.z as i64
            + v3.transformed_normal.z as i64;
        let lx: i64 = 3 * (self.position.x as i64) - (v1.position.x as i64 + v2.position.x as i64
            + v3.position.x as i64);
        let ly: i64 = 3 * (self.position.y as i64) - (v1.position.y as i64 + v2.position.y as i64
            + v3.position.y as i64);
        let lz: i64 = 3 * (self.position.z as i64) - (v1.position.z as i64 + v2.position.z as i64
            + v3.position.z as i64);
        let d = dot_wide(nx, ny, nz, lx, ly, lz);
        let nn = dot_wide(nx, ny, nz, nx, ny, nz);
        let ll = dot_wide(lx, ly, lz, lx, ly, lz);
        if d <= 0 || nn <= 0 || ll <= 0 {
            return 0;
        }
        let rn: u64 = isqrt(nn as u128);
        let rl: u64 = isqrt(ll as u128);
        proof {
            lemma_isqrt_bounds(nn as nat);
            lemma_isqrt_bounds(ll as nat);
            lemma_root_below(spec_isqrt(nn as nat), nn as nat);
            lemma_root_below(spec_isqrt(ll as nat), ll as nat);
            lemma_mul_bounded(rn as int, rl as int, 0x10_0000_0000, 0x10_0000_0000);
            assert(rn as int * rl as int >= 1) by (nonlinear_arith)
                requires
                    rn >= 1,
                    rl >= 1,
            ;
        }
        let norms: i128 = (rn as i128) * (rl as i128);
        let q = div_floor(65536 * d, norms);
        proof {
            assert(q >= 0) by (nonlinear_arith)
                requires
                    q == (65536 * d) / (norms as int),
                    d > 0,
                    norms > 0,
            ;
        }
        if q > 65536 {
            65536
        } else {
            q as i32
        }
    }
}

/// The limit on each component that [`dot_wide`] accepts.
pub const DOT_LIMIT: i64 = 0x4_0000_0000;

/// A number whose square stays below 2^72 is itself below 2^36, and it is
/// positive if it is the root of a positive number.
proof fn lemma_root_below(r: nat, n: nat)
    by (nonlinear_arith)
    requires
        r * r <= n < (r + 1) * (r + 1),
        0 < n <= 0x100_0000_0000_0000_0000,
    ensures
        1 <= r <= 0x10_0000_0000,
{
}

/// The exact dot product of two vectors whose components stay within
/// [`DOT_LIMIT`].
fn dot_wide(ax: i64, ay: i64, az: i64, bx: i64, by: i64, bz: i64) -> (d: i128)
    requires
        -DOT_LIMIT <= ax <= DOT_LIMIT,
        -DOT_LIMIT <= ay <= DOT_LIMIT,
        -DOT_LIMIT <= az <= DOT_LIMIT,
        -DOT_LIMIT <= bx <= DOT_LIMIT,
        -DOT_LIMIT <= by <= DOT_LIMIT,
        -DOT_LIMIT <= bz <= DOT_LIMIT,
    ensures
        d == dot3((ax as int, ay as int, az as int), (bx as int, by as int, bz as int)),
        -0x30_0000_0000_0000_0000 <= d <= 0x30_0000_0000_0000_0000,
{
    proof {
        lemma_mul_bounded(ax as int, bx as int, DOT_LIMIT as int, DOT_LIMIT as int);
        lemma_mul_bounded(ay as int, by as int, DOT_LIMIT as int, DOT_LIMIT as int);
        lemma_mul_bounded(az as int, bz as int, DOT_LIMIT as int, DOT_LIMIT as int);
        assert(DOT_LIMIT * DOT_LIMIT == 0x10_0000_0000_0000_0000) by (nonlinear_arith)
            requires
                DOT_LIMIT == 0x4_0000_0000,
        ;
    }
    wide_mul(ax, bx) + wide_mul(ay, by) + wide_mul(az, bz)
}

} // verus!
