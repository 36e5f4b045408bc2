//! Triangle rasterization.
//!
//! A triangle is sampled at the centre of every pixel of its bounding box.
//! A pixel belongs to the triangle when its centre lies strictly inside, or
//! on an edge that the triangle owns under the top-left rule: an edge owns
//! its points when it runs upward on the screen, or when it is horizontal
//! and runs to the right (with the interior on its positive side). Two
//! triangles that share an edge traverse it in opposite directions, so
//! exactly one of them owns its points.

use crate::fixed::div_floor;
use crate::fixed::fixed_mul;
use crate::fixed::floor_div;
use crate::fixed::lemma_floor_div_bounds;
use crate::fixed::lemma_mul_bounded;
use crate::fixed::wide_mul;
use crate::fixed::HALF;
use crate::fixed::ONE;
use crate::fragment::Fragment;
use crate::geometry::cross;
use crate::geometry::edge;
use crate::geometry::lemma_barycentric;
use crate::geometry::lemma_cancel_positive;
use crate::geometry::lemma_collinear_cross;
use crate::geometry::lemma_cross_back;
use crate::geometry::lemma_edge_reversed;
use crate::geometry::lemma_edge_self;
use crate::geometry::lemma_edge_sum;
use crate::geometry::lemma_negated_products;
use crate::geometry::lemma_weighted_mean_bounds;
use crate::light::Light;
use crate::vector::Vector2;
use crate::vector::Vector3;
use crate::vertex::Vertex;
use vstd::arithmetic::div_mod::lemma_fundamental_div_mod_converse;
use vstd::prelude::*;

verus! {

/// Whether an edge with direction `(dx, dy)` owns the points that lie on it:
/// it does when it is a left edge (running toward smaller `y`) or a top edge
/// (horizontal, running toward larger `x`).
pub open spec fn owns_boundary(dx: int, dy: int) -> bool {
    dy < 0 || (dy == 0 && dx > 0)
}

/// Whether the point `p` passes the test of the edge from `s` to `t`.
pub open spec fn edge_accepts(sx: int, sy: int, tx: int, ty: int, px: int, py: int) -> bool {
    let e = edge(sx, sy, tx, ty, px, py);
    e > 0 || (e == 0 && owns_boundary(tx - sx, ty - sy))
}

/// The coordinate of the centre of the pixel column or row `i`.
pub open spec fn center(i: int) -> int {
    i * ONE + HALF
}

/// Twice the signed area of the screen-space triangle `a b c`.
pub open spec fn signed_area(a: Vector3, b: Vector3, c: Vector3) -> int {
    edge(a.x as int, a.y as int, b.x as int, b.y as int, c.x as int, c.y as int)
}

/// Coverage of the pixel `(x, y)` by a triangle of positive signed area.
pub open spec fn covers_wound(a: Vector3, b: Vector3, c: Vector3, x: int, y: int) -> bool {
    &&& edge_accepts(a.x as int, a.y as int, b.x as int, b.y as int, center(x), center(y))
    &&& edge_accepts(b.x as int, b.y as int, c.x as int, c.y as int, center(x), center(y))
    &&& edge_accepts(c.x as int, c.y as int, a.x as int, a.y as int, center(x), center(y))
}

/// Whether the triangle `a b c` covers the pixel `(x, y)`. Triangles of
/// either winding are drawn; a triangle without area covers nothing.
pub open spec fn covers(a: Vector3, b: Vector3, c: Vector3, x: int, y: int) -> bool {
    if signed_area(a, b, c) > 0 {
        covers_wound(a, b, c, x, y)
    } else if signed_area(a, b, c) < 0 {
        covers_wound(a, c, b, x, y)
    } else {
        false
    }
}

/// The barycentric weight of the first vertex at the pixel `(x, y)`, scaled
/// by twice the area of the triangle.
pub open spec fn weight_a(a: Vector3, b: Vector3, c: Vector3, x: int, y: int) -> int {
    let e = edge(b.x as int, b.y as int, c.x as int, c.y as int, center(x), center(y));
    if signed_area(a, b, c) < 0 {
        -e
    } else {
        e
    }
}

/// The scaled barycentric weight of the second vertex.
pub open spec fn weight_b(a: Vector3, b: Vector3, c: Vector3, x: int, y: int) -> int {
    let e = edge(c.x as int, c.y as int, a.x as int, a.y as int, center(x), center(y));
    if signed_area(a, b, c) < 0 {
        -e
    } else {
        e
    }
}

/// The scaled barycentric weight of the third vertex.
pub open spec fn weight_c(a: Vector3, b: Vector3, c: Vector3, x: int, y: int) -> int {
    let e = edge(a.x as int, a.y as int, b.x as int, b.y as int, center(x), center(y));
    if signed_area(a, b, c) < 0 {
        -e
    } else {
        e
    }
}

/// The weighted mean of three attribute values, rounded down.
pub open spec fn interpolate(wa: int, wb: int, wc: int, fa: int, fb: int, fc: int) -> int {
    floor_div(wa * fa + wb * fb + wc * fc, wa + wb + wc)
}

/// The attribute triple `(fa, fb, fc)` interpolated at the pixel `(x, y)` of
/// the triangle `a b c`.
pub open spec fn attribute_at(
    a: Vector3,
    b: Vector3,
    c: Vector3,
    x: int,
    y: int,
    fa: i32,
    fb: i32,
    fc: i32,
) -> i32 {
    interpolate(
        weight_a(a, b, c, x, y),
        weight_b(a, b, c, x, y),
        weight_c(a, b, c, x, y),
        fa as int,
        fb as int,
        fc as int,
    ) as i32
}

/// The fragment that the triangle `v1 v2 v3`, lit with `intensity`,
/// contributes at the pixel `(x, y)`.
///
/// Depth, colour and world position are interpolated linearly in screen
/// space; the colour is then scaled by the lighting factor.
pub open spec fn fragment_at(v1: Vertex, v2: Vertex, v3: Vertex, intensity: i32, x: int, y: int)
    -> Fragment {
    let a = v1.transformed_position;
    let b = v2.transformed_position;
    let c = v3.transformed_position;
    Fragment {
        position: Vector2 { x: (x * ONE) as i32, y: (y * ONE) as i32 },
        color: Vector3 {
            x: fixed_mul(attribute_at(a, b, c, x, y, v1.color.x, v2.color.x, v3.color.x), intensity),
            y: fixed_mul(attribute_at(a, b, c, x, y, v1.color.y, v2.color.y, v3.color.y), intensity),
            z: fixed_mul(attribute_at(a, b, c, x, y, v1.color.z, v2.color.z, v3.color.z), intensity),
        },
        depth: attribute_at(a, b, c, x, y, a.z, b.z, c.z),
        world_position: Vector3 {
            x: attribute_at(a, b, c, x, y, v1.position.x, v2.position.x, v3.position.x),
            y: attribute_at(a, b, c, x, y, v1.position.y, v2.position.y, v3.position.y),
            z: attribute_at(a, b, c, x, y, v1.position.z, v2.position.z, v3.position.z),
        },
    }
}

/// The smallest of three numbers.
pub open spec fn min3(a: int, b: int, c: int) -> int {
    if a <= b && a <= c {
        a
    } else if b <= c {
        b
    } else {
        c
    }
}

/// The largest of three numbers.
pub open spec fn max3(a: int, b: int, c: int) -> int {
    if a >= b && a >= c {
        a
    } else if b >= c {
        b
    } else {
        c
    }
}

/// The first pixel column of the bounding box of the triangle.
pub open spec fn first_column(a: Vector3, b: Vector3, c: Vector3) -> int {
    floor_div(min3(a.x as int, b.x as int, c.x as int), ONE as int)
}

/// The last pixel column of the bounding box.
pub open spec fn last_column(a: Vector3, b: Vector3, c: Vector3) -> int {
    floor_div(max3(a.x as int, b.x as int, c.x as int), ONE as int)
}

/// The first pixel row of the bounding box.
pub open spec fn first_row(a: Vector3, b: Vector3, c: Vector3) -> int {
    floor_div(min3(a.y as int, b.y as int, c.y as int), ONE as int)
}

/// The last pixel row of the bounding box.
pub open spec fn last_row(a: Vector3, b: Vector3, c: Vector3) -> int {
    floor_div(max3(a.y as int, b.y as int, c.y as int), ONE as int)
}

/// The number of pixel columns in the bounding box.
pub open spec fn scan_width(a: Vector3, b: Vector3, c: Vector3) -> int {
    last_column(a, b, c) - first_column(a, b, c) + 1
}

/// The number of pixel rows in the bounding box.
pub open spec fn scan_height(a: Vector3, b: Vector3, c: Vector3) -> int {
    last_row(a, b, c) - first_row(a, b, c) + 1
}

/// The pixels of the bounding box, row by row from the top, each row from
/// the left.
pub open spec fn scan(a: Vector3, b: Vector3, c: Vector3) -> Seq<(int, int)> {
    Seq::new(
        (scan_width(a, b, c) * scan_height(a, b, c)) as nat,
        |i: int|
            (first_column(a, b, c) + i % scan_width(a, b, c), first_row(a, b, c) + i / scan_width(
                a,
                b,
                c,
            )),
    )
}

/// The coverage test as a predicate on pixels.
pub open spec fn covered_by(a: Vector3, b: Vector3, c: Vector3) -> spec_fn((int, int)) -> bool {
    |p: (int, int)| covers(a, b, c, p.0, p.1)
}

/// The fragment of a pixel as a function of the pixel.
pub open spec fn fragment_of(v1: Vertex, v2: Vertex, v3: Vertex, intensity: i32) -> spec_fn(
    (int, int),
) -> Fragment {
    |p: (int, int)| fragment_at(v1, v2, v3, intensity, p.0, p.1)
}

/// The fragments of the triangle `v1 v2 v3` under `light`: one for every
/// covered pixel, in scan order.
pub open spec fn triangle_fragments(v1: Vertex, v2: Vertex, v3: Vertex, light: Light) -> Seq<
    Fragment,
> {
    let a = v1.transformed_position;
    let b = v2.transformed_position;
    let c = v3.transformed_position;
    scan(a, b, c).filter(covered_by(a, b, c)).map_values(
        fragment_of(v1, v2, v3, light.spec_intensity(v1, v2, v3)),
    )
}

/// At a covered pixel the three weights are nonnegative and add up to
/// twice the area of the triangle, which is positive.
pub proof fn lemma_covered_weights(a: Vector3, b: Vector3, c: Vector3, x: int, y: int)
    requires
        covers(a, b, c, x, y),
    ensures
        weight_a(a, b, c, x, y) >= 0,
        weight_b(a, b, c, x, y) >= 0,
        weight_c(a, b, c, x, y) >= 0,
        weight_a(a, b, c, x, y) + weight_b(a, b, c, x, y) + weight_c(a, b, c, x, y) > 0,
        weight_a(a, b, c, x, y) + weight_b(a, b, c, x, y) + weight_c(a, b, c, x, y) == (if
            signed_area(a, b, c) < 0 {
            -signed_area(a, b, c)
        } else {
            signed_area(a, b, c)
        }),
{
    let (px, py) = (center(x), center(y));
    lemma_edge_sum(a.x as int, a.y as int, b.x as int, b.y as int, c.x as int, c.y as int, px, py);
    lemma_edge_reversed(a.x as int, a.y as int, b.x as int, b.y as int, px, py);
    lemma_edge_reversed(b.x as int, b.y as int, c.x as int, c.y as int, px, py);
    lemma_edge_reversed(c.x as int, c.y as int, a.x as int, a.y as int, px, py);
}

/// Every covered pixel has its centre inside the bounding rectangle of the
/// three vertices, and so lies in the scanned box.
pub proof fn lemma_covered_in_box(a: Vector3, b: Vector3, c: Vector3, x: int, y: int)
    requires
        covers(a, b, c, x, y),
    ensures
        first_column(a, b, c) <= x <= last_column(a, b, c),
        first_row(a, b, c) <= y <= last_row(a, b, c),
{
    let (px, py) = (center(x), center(y));
    let wa = weight_a(a, b, c, x, y);
    let wb = weight_b(a, b, c, x, y);
    let wc = weight_c(a, b, c, x, y);
    let w = wa + wb + wc;
    lemma_covered_weights(a, b, c, x, y);
    lemma_barycentric(a.x as int, a.y as int, b.x as int, b.y as int, c.x as int, c.y as int, px, py);
    let ea = edge(b.x as int, b.y as int, c.x as int, c.y as int, px, py);
    let eb = edge(c.x as int, c.y as int, a.x as int, a.y as int, px, py);
    let ec = edge(a.x as int, a.y as int, b.x as int, b.y as int, px, py);
    if signed_area(a, b, c) < 0 {
        lemma_negated_products(ea, eb, ec, signed_area(a, b, c), a.x as int, b.x as int, c.x as int, px);
        lemma_negated_products(ea, eb, ec, signed_area(a, b, c), a.y as int, b.y as int, c.y as int, py);
    }
    assert(wa * a.x + wb * b.x + wc * c.x == w * px);
    assert(wa * a.y + wb * b.y + wc * c.y == w * py);
    let (lo_x, hi_x) = (min3(a.x as int, b.x as int, c.x as int), max3(
        a.x as int,
        b.x as int,
        c.x as int,
    ));
    let (lo_y, hi_y) = (min3(a.y as int, b.y as int, c.y as int), max3(
        a.y as int,
        b.y as int,
        c.y as int,
    ));
    lemma_weighted_mean_bounds(wa, wb, wc, a.x as int, b.x as int, c.x as int, lo_x, hi_x);
    lemma_weighted_mean_bounds(wa, wb, wc, a.y as int, b.y as int, c.y as int, lo_y, hi_y);
    lemma_cancel_positive(w, lo_x, px);
    lemma_cancel_positive(w, px, hi_x);
    lemma_cancel_positive(w, lo_y, py);
    lemma_cancel_positive(w, py, hi_y);
    lemma_floor_div_bounds(lo_x, ONE as int);
    lemma_floor_div_bounds(hi_x, ONE as int);
    lemma_floor_div_bounds(lo_y, ONE as int);
    lemma_floor_div_bounds(hi_y, ONE as int);
}

/// The interpolated value of an attribute at a covered pixel lies between
/// the smallest and the largest of the three vertex values.
pub proof fn lemma_attribute_bounds(
    a: Vector3,
    b: Vector3,
    c: Vector3,
    x: int,
    y: int,
    fa: i32,
    fb: i32,
    fc: i32,
)
    requires
        covers(a, b, c, x, y),
    ensures
        min3(fa as int, fb as int, fc as int) <= attribute_at(a, b, c, x, y, fa, fb, fc) <= max3(
            fa as int,
            fb as int,
            fc as int,
        ),
        attribute_at(a, b, c, x, y, fa, fb, fc) == interpolate(
            weight_a(a, b, c, x, y),
            weight_b(a, b, c, x, y),
            weight_c(a, b, c, x, y),
            fa as int,
            fb as int,
            fc as int,
        ),
{
    let wa = weight_a(a, b, c, x, y);
    let wb = weight_b(a, b, c, x, y);
    let wc = weight_c(a, b, c, x, y);
    lemma_covered_weights(a, b, c, x, y);
    lemma_interpolate_bounds(wa, wb, wc, fa as int, fb as int, fc as int);
}

/// With nonnegative weights that do not all vanish, the rounded mean lies
/// between the smallest and the largest value.
pub proof fn lemma_interpolate_bounds(wa: int, wb: int, wc: int, fa: int, fb: int, fc: int)
    requires
        wa >= 0,
        wb >= 0,
        wc >= 0,
        wa + wb + wc > 0,
    ensures
        min3(fa, fb, fc) <= interpolate(wa, wb, wc, fa, fb, fc) <= max3(fa, fb, fc),
{
    let w = wa + wb + wc;
    let n = wa * fa + wb * fb + wc * fc;
    let q = floor_div(n, w);
    let (lo, hi) = (min3(fa, fb, fc), max3(fa, fb, fc));
    lemma_weighted_mean_bounds(wa, wb, wc, fa, fb, fc, lo, hi);
    lemma_floor_div_bounds(n, w);
    assert(lo <= q <= hi) by (nonlinear_arith)
        requires
            w > 0,
            w * lo <= n <= w * hi,
            q * w <= n < q * w + w,
    ;
}

/// Largest magnitude of a sample coordinate that [`edge_value`] accepts.
const POINT_LIMIT: i64 = 0x1_0000_0000_0000;

/// Largest sum of weights that [`mean`] accepts.
const WEIGHT_LIMIT: i128 = 0x400_0000_0000_0000_0000_0000;

/// The edge function on machine integers.
fn edge_value(sx: i32, sy: i32, tx: i32, ty: i32, px: i64, py: i64) -> (e: i128)
    requires
        -POINT_LIMIT <= px <= POINT_LIMIT,
        -POINT_LIMIT <= py <= POINT_LIMIT,
    ensures
        e == edge(sx as int, sy as int, tx as int, ty as int, px as int, py as int),
        -WEIGHT_LIMIT <= e <= WEIGHT_LIMIT,
{
    let dx: i64 = tx as i64 - sx as i64;
    let dy: i64 = ty as i64 - sy as i64;
    let qx: i64 = px - sx as i64;
    let qy: i64 = py - sy as i64;
    proof {
        lemma_mul_bounded(dx as int, qy as int, 0x1_0000_0000, 0x2_0000_0000_0000);
        lemma_mul_bounded(dy as int, qx as int, 0x1_0000_0000, 0x2_0000_0000_0000);
    }
    wide_mul(dx, qy) - wide_mul(dy, qx)
}

/// The test of one edge, given the value of its edge function at the sample
/// and its direction.
fn accepts(e: i128, dx: i64, dy: i64) -> (inside: bool)
    ensures
        inside == (e > 0 || (e == 0 && owns_boundary(dx as int, dy as int))),
{
    e > 0 || (e == 0 && (dy < 0 || (dy == 0 && dx > 0)))
}

/// The weighted mean of three attribute values, rounded down.
fn mean(wa: i128, wb: i128, wc: i128, fa: i32, fb: i32, fc: i32) -> (r: i32)
    requires
        wa >= 0,
        wb >= 0,
        wc >= 0,
        0 < wa + wb + wc <= WEIGHT_LIMIT,
    ensures
        r == interpolate(wa as int, wb as int, wc as int, fa as int, fb as int, fc as int),
{
    proof {
        lemma_mul_bounded(wa as int, fa as int, WEIGHT_LIMIT as int, 0x8000_0000);
        lemma_mul_bounded(wb as int, fb as int, WEIGHT_LIMIT as int, 0x8000_0000);
        lemma_mul_bounded(wc as int, fc as int, WEIGHT_LIMIT as int, 0x8000_0000);
        lemma_interpolate_bounds(
            wa as int,
            wb as int,
            wc as int,
            fa as int,
            fb as int,
            fc as int,
        );
    }
    let sum: i128 = wa * (fa as i128) + wb * (fb as i128) + wc * (fc as i128);
    div_floor(sum, wa + wb + wc) as i32
}

/// The fragment that the triangle `v1 v2 v3` contributes at the pixel
/// `(x, y)`, if it covers that pixel. `intensity` is the lighting factor that
/// the colour is scaled with.
pub fn sample(v1: &Vertex, v2: &Vertex, v3: &Vertex, intensity: i32, x: i32, y: i32) -> (result:
    Option<Fragment>)
    ensures
        result == (if covers(
            v1.transformed_position,
            v2.transformed_position,
            v3.transformed_position,
            x as int,
            y as int,
        ) {
            Some(fragment_at(*v1, *v2, *v3, intensity, x as int, y as int))
        } else {
            None
        }),
{
    let a = v1.transformed_position;
    let b = v2.transformed_position;
    let c = v3.transformed_position;
    let px: i64 = (x as i64) * 65536 + 32768;
    let py: i64 = (y as i64) * 65536 + 32768;
    let area = edge_value(a.x, a.y, b.x, b.y, c.x as i64, c.y as i64);
    if area == 0 {
        return None;
    }
    let ea = edge_value(b.x, b.y, c.x, c.y, px, py);
    let eb = edge_value(c.x, c.y, a.x, a.y, px, py);
    let ec = edge_value(a.x, a.y, b.x, b.y, px, py);
    proof {
        lemma_edge_reversed(a.x as int, a.y as int, b.x as int, b.y as int, px as int, py as int);
        lemma_edge_reversed(b.x as int, b.y as int, c.x as int, c.y as int, px as int, py as int);
        lemma_edge_reversed(c.x as int, c.y as int, a.x as int, a.y as int, px as int, py as int);
    }
    let (inside, wa, wb, wc): (bool, i128, i128, i128) = if area > 0 {
        (
            accepts(ec, b.x as i64 - a.x as i64, b.y as i64 - a.y as i64) && accepts(
                ea,
                c.x as i64 - b.x as i64,
                c.y as i64 - b.y as i64,
            ) && accepts(eb, a.x as i64 - c.x as i64, a.y as i64 - c.y as i64),
            ea,
            eb,
            ec,
        )
    } else {
        (
            accepts(-eb, c.x as i64 - a.x as i64, c.y as i64 - a.y as i64) && accepts(
                -ea,
                b.x as i64 - c.x as i64,
                b.y as i64 - c.y as i64,
            ) && accepts(-ec, a.x as i64 - b.x as i64, a.y as i64 - b.y as i64),
            -ea,
            -eb,
            -ec,
        )
    };
    if !inside {
        return None;
    }
    proof {
        lemma_covered_weights(a, b, c, x as int, y as int);
        lemma_covered_in_box(a, b, c, x as int, y as int);
        lemma_floor_div_bounds(min3(a.x as int, b.x as int, c.x as int), ONE as int);
        lemma_floor_div_bounds(max3(a.x as int, b.x as int, c.x as int), ONE as int);
        lemma_floor_div_bounds(min3(a.y as int, b.y as int, c.y as int), ONE as int);
        lemma_floor_div_bounds(max3(a.y as int, b.y as int, c.y as int), ONE as int);
    }
    Some(
        Fragment {
            position: Vector2 { x: x * 65536, y: y * 65536 },
            color: Vector3 {
                x: fixed_mul(mean(wa, wb, wc, v1.color.x, v2.color.x, v3.color.x), intensity),
                y: fixed_mul(mean(wa, wb, wc, v1.color.y, v2.color.y, v3.color.y), intensity),
                z: fixed_mul(mean(wa, wb, wc, v1.color.z, v2.color.z, v3.color.z), intensity),
            },
            depth: mean(wa, wb, wc, a.z, b.z, c.z),
            world_position: Vector3 {
                x: mean(wa, wb, wc, v1.position.x, v2.position.x, v3.position.x),
                y: mean(wa, wb, wc, v1.position.y, v2.position.y, v3.position.y),
                z: mean(wa, wb, wc, v1.position.z, v2.position.z, v3.position.z),
            },
        },
    )
}

/// The place of a pixel of the bounding box in the scan.
pub open spec fn scan_index(a: Vector3, b: Vector3, c: Vector3, x: int, y: int) -> int {
    (y - first_row(a, b, c)) * scan_width(a, b, c) + (x - first_column(a, b, c))
}

/// Every pixel of the bounding box is scanned, at the place that
/// [`scan_index`] gives.
pub proof fn lemma_scan_index(a: Vector3, b: Vector3, c: Vector3, x: int, y: int)
    requires
        first_column(a, b, c) <= x <= last_column(a, b, c),
        first_row(a, b, c) <= y <= last_row(a, b, c),
    ensures
        0 <= scan_index(a, b, c, x, y) < scan(a, b, c).len(),
        scan(a, b, c)[scan_index(a, b, c, x, y)] == (x, y),
{
    let w = scan_width(a, b, c);
    let h = scan_height(a, b, c);
    let q = y - first_row(a, b, c);
    let r = x - first_column(a, b, c);
    let k = scan_index(a, b, c, x, y);
    assert(0 <= q * w && q * w + w <= w * h) by (nonlinear_arith)
        requires
            0 <= q < h,
            w > 0,
    ;
    lemma_fundamental_div_mod_converse(k, w, q, r);
}

/// Scanning one more element extends the filtered and mapped prefix by that
/// element if it passes the filter, and leaves it unchanged otherwise.
proof fn lemma_extend<A, B>(s: Seq<A>, k: int, pred: spec_fn(A) -> bool, f: spec_fn(A) -> B)
    requires
        0 <= k < s.len(),
    ensures
        s.take(k + 1).filter(pred).map_values(f) == (if pred(s[k]) {
            s.take(k).filter(pred).map_values(f).push(f(s[k]))
        } else {
            s.take(k).filter(pred).map_values(f)
        }),
{
    let longer = s.take(k + 1);
    assert(longer.drop_last() == s.take(k));
    assert(longer.last() == s[k]);
    reveal(Seq::filter);
    if pred(s[k]) {
        assert(longer.filter(pred) == s.take(k).filter(pred).push(s[k]));
        assert(s.take(k).filter(pred).push(s[k]).map_values(f) == s.take(k).filter(
            pred,
        ).map_values(f).push(f(s[k])));
    }
}

/// A triangle without area has no fragments.
proof fn lemma_degenerate(v1: Vertex, v2: Vertex, v3: Vertex, light: Light)
    requires
        signed_area(v1.transformed_position, v2.transformed_position, v3.transformed_position)
            == 0,
    ensures
        triangle_fragments(v1, v2, v3, light) == Seq::<Fragment>::empty(),
{
    let a = v1.transformed_position;
    let b = v2.transformed_position;
    let c = v3.transformed_position;
    let kept = scan(a, b, c).filter(covered_by(a, b, c));
    if kept.len() > 0 {
        scan(a, b, c).lemma_filter_pred(covered_by(a, b, c), 0);
    }
    assert(triangle_fragments(v1, v2, v3, light) =~= Seq::<Fragment>::empty());
}

/// The pixel column or row that the coordinate `v` falls into.
fn pixel_of(v: i32) -> (p: i32)
    ensures
        p == floor_div(v as int, ONE as int),
        -32768 <= p <= 32767,
{
    div_floor(v as i128, 65536) as i32
}

fn smallest(a: i32, b: i32, c: i32) -> (m: i32)
    ensures
        m == min3(a as int, b as int, c as int),
{
    if a <= b && a <= c {
        a
    } else if b <= c {
        b
    } else {
        c
    }
}

fn largest(a: i32, b: i32, c: i32) -> (m: i32)
    ensures
        m == max3(a as int, b as int, c as int),
{
    if a >= b && a >= c {
        a
    } else if b >= c {
        b
    } else {
        c
    }
}

/// Rasterizes the triangle `v1 v2 v3`, whose screen-space positions the
/// vertex stage has filled in, under `light`.
///
/// The result holds exactly one fragment for every pixel that the triangle
/// covers, row by row from the top and from left to right within a row.
pub fn triangle(v1: &Vertex, v2: &Vertex, v3: &Vertex, light: &Light) -> (fragments: Vec<Fragment>)
    ensures
        fragments@ == triangle_fragments(*v1, *v2, *v3, *light),
{
    let a = v1.transformed_position;
    let b = v2.transformed_position;
    let c = v3.transformed_position;
    let mut fragments: Vec<Fragment> = Vec::new();
    if edge_value(a.x, a.y, b.x, b.y, c.x as i64, c.y as i64) == 0 {
        proof {
            lemma_degenerate(*v1, *v2, *v3, *light);
        }
        return fragments;
    }
    let intensity = light.intensity(v1, v2, v3);
    let x0 = pixel_of(smallest(a.x, b.x, c.x));
    let x1 = pixel_of(largest(a.x, b.x, c.x));
    let y0 = pixel_of(smallest(a.y, b.y, c.y));
    let y1 = pixel_of(largest(a.y, b.y, c.y));
    let ghost pixels = scan(a, b, c);
    let ghost pred = covered_by(a, b, c);
    let ghost shade = fragment_of(*v1, *v2, *v3, intensity);
    let ghost width = scan_width(a, b, c);
    let ghost row_start: int = 0;
    proof {
        lemma_floor_div_bounds(min3(a.x as int, b.x as int, c.x as int), ONE as int);
        lemma_floor_div_bounds(max3(a.x as int, b.x as int, c.x as int), ONE as int);
        lemma_floor_div_bounds(min3(a.y as int, b.y as int, c.y as int), ONE as int);
        lemma_floor_div_bounds(max3(a.y as int, b.y as int, c.y as int), ONE as int);
        assert(pixels.take(0).filter(pred) =~= Seq::<(int, int)>::empty()) by {
            reveal(Seq::filter);
        }
    }
    let mut y: i32 = y0;
    while y <= y1
        invariant
            a == v1.transformed_position,
            b == v2.transformed_position,
            c == v3.transformed_position,
            x0 == first_column(a, b, c),
            x1 == last_column(a, b, c),
            y0 == first_row(a, b, c),
            y1 == last_row(a, b, c),
            x0 <= x1 <= 32767,
            y0 <= y <= y1 + 1,
            y1 <= 32767,
            pixels == scan(a, b, c),
            pred == covered_by(a, b, c),
            shade == fragment_of(*v1, *v2, *v3, intensity),
            width == x1 - x0 + 1,
            row_start == (y - y0) * width,
            fragments@ == pixels.take(row_start).filter(pred).map_values(shade),
        decreases y1 - y + 1,
    {
        let mut x: i32 = x0;
        while x <= x1
            invariant
                a == v1.transformed_position,
                b == v2.transformed_position,
                c == v3.transformed_position,
                x0 == first_column(a, b, c),
                x1 == last_column(a, b, c),
                y0 == first_row(a, b, c),
                y1 == last_row(a, b, c),
                x0 <= x <= x1 + 1,
                x1 <= 32767,
                y0 <= y <= y1,
                pixels == scan(a, b, c),
                pred == covered_by(a, b, c),
                shade == fragment_of(*v1, *v2, *v3, intensity),
                width == x1 - x0 + 1,
                row_start == (y - y0) * width,
                fragments@ == pixels.take(row_start + (x - x0)).filter(pred).map_values(shade),
            decreases x1 - x + 1,
        {
            proof {
                lemma_scan_index(a, b, c, x as int, y as int);
                lemma_extend(pixels, row_start + (x - x0), pred, shade);
            }
            match sample(v1, v2, v3, intensity, x, y) {
                Some(fragment) => {
                    fragments.push(fragment);
                },
                None => {},
            }
            x = x + 1;
        }
        proof {
            assert((y - y0) * width + width == (y + 1 - y0) * width) by (nonlinear_arith);
            row_start = row_start + width;
        }
        y = y + 1;
    }
    proof {
        assert(row_start == pixels.len()) by (nonlinear_arith)
            requires
                row_start == (y1 + 1 - y0) * width,
                pixels.len() == width * (y1 - y0 + 1),
        ;
        assert(pixels.take(row_start) == pixels);
    }
    fragments
}

/// Coverage is decided by the barycentric weights: a pixel whose three
/// weights are all positive is covered, and a covered pixel has no negative
/// weight. Only for a pixel with a weight of exactly zero, whose centre
/// lies on the line through an edge, does the top-left rule decide.
pub proof fn law_coverage_by_weights(a: Vector3, b: Vector3, c: Vector3, x: int, y: int)
    requires
        signed_area(a, b, c) != 0,
    ensures
        weight_a(a, b, c, x, y) > 0 && weight_b(a, b, c, x, y) > 0 && weight_c(a, b, c, x, y) > 0
            ==> covers(a, b, c, x, y),
        covers(a, b, c, x, y) ==> weight_a(a, b, c, x, y) >= 0 && weight_b(a, b, c, x, y) >= 0
            && weight_c(a, b, c, x, y) >= 0,
{
    let (px, py) = (center(x), center(y));
    lemma_edge_reversed(a.x as int, a.y as int, b.x as int, b.y as int, px, py);
    lemma_edge_reversed(b.x as int, b.y as int, c.x as int, c.y as int, px, py);
    lemma_edge_reversed(c.x as int, c.y as int, a.x as int, a.y as int, px, py);
}

/// Listing the vertices of a triangle in another order does not change
/// which pixels it covers.
pub proof fn law_coverage_ignores_vertex_order(
    a: Vector3,
    b: Vector3,
    c: Vector3,
    x: int,
    y: int,
)
    ensures
        covers(b, c, a, x, y) == covers(a, b, c, x, y),
        covers(c, a, b, x, y) == covers(a, b, c, x, y),
        covers(a, c, b, x, y) == covers(a, b, c, x, y),
        covers(b, a, c, x, y) == covers(a, b, c, x, y),
        covers(c, b, a, x, y) == covers(a, b, c, x, y),
{
    let (ax, ay) = (a.x as int, a.y as int);
    let (bx, by) = (b.x as int, b.y as int);
    let (cx, cy) = (c.x as int, c.y as int);
    lemma_edge_sum(ax, ay, bx, by, cx, cy, ax, ay);
    lemma_edge_sum(ax, ay, bx, by, cx, cy, bx, by);
    lemma_edge_sum(ax, ay, bx, by, cx, cy, cx, cy);
    lemma_edge_self(ax, ay, bx, by);
    lemma_edge_self(bx, by, cx, cy);
    lemma_edge_self(cx, cy, ax, ay);
    lemma_edge_reversed(ax, ay, bx, by, cx, cy);
    lemma_edge_reversed(bx, by, cx, cy, ax, ay);
    lemma_edge_reversed(cx, cy, ax, ay, bx, by);
}

/// Of an edge and its reverse, exactly one owns the points on it.
pub proof fn lemma_one_direction_owns(dx: int, dy: int)
    requires
        dx != 0 || dy != 0,
    ensures
        owns_boundary(dx, dy) != owns_boundary(-dx, -dy),
{
}

/// Whether the point `p` lies on the segment from `a` to `b`, strictly
/// between its ends.
pub open spec fn on_open_segment(a: Vector3, b: Vector3, px: int, py: int) -> bool {
    let (dx, dy) = (b.x - a.x, b.y - a.y);
    let (qx, qy) = (px - a.x, py - a.y);
    &&& cross(dx, dy, qx, qy) == 0
    &&& 0 < dx * qx + dy * qy < dx * dx + dy * dy
}

/// At a point strictly inside the edge `a b` of a triangle with apex `c`
/// and positive area, the edge functions of the two other edges are
/// positive.
proof fn lemma_inside_edge(a: Vector3, b: Vector3, c: Vector3, px: int, py: int)
    requires
        signed_area(a, b, c) > 0,
        on_open_segment(a, b, px, py),
    ensures
        edge(b.x as int, b.y as int, c.x as int, c.y as int, px, py) > 0,
        edge(c.x as int, c.y as int, a.x as int, a.y as int, px, py) > 0,
        edge(a.x as int, a.y as int, b.x as int, b.y as int, px, py) == 0,
{
    let (dx, dy) = (b.x - a.x, b.y - a.y);
    let (qx, qy) = (px - a.x, py - a.y);
    let (vx, vy) = (c.x - a.x, c.y - a.y);
    let dd = dx * dx + dy * dy;
    let dq = dx * qx + dy * qy;
    let area = signed_area(a, b, c);
    let ea = edge(b.x as int, b.y as int, c.x as int, c.y as int, px, py);
    let eb = edge(c.x as int, c.y as int, a.x as int, a.y as int, px, py);
    lemma_edge_sum(a.x as int, a.y as int, b.x as int, b.y as int, c.x as int, c.y as int, px, py);
    lemma_cross_back(vx, vy, qx, qy);
    assert(eb == cross(qx, qy, vx, vy));
    assert(area == cross(dx, dy, vx, vy));
    lemma_collinear_cross(dx, dy, qx, qy, vx, vy);
    assert(eb > 0 && ea > 0) by (nonlinear_arith)
        requires
            dd * eb == dq * area,
            ea + eb == area,
            area > 0,
            0 < dq < dd,
    ;
}

/// The partition law of shared edges. Let two triangles share the edge
/// `a b` and have their third vertices `c` and `d` strictly on opposite
/// sides of it. Then no pixel is covered by both, and a pixel whose centre
/// lies on the shared edge, strictly between its ends, is covered by exactly
/// one of them.
pub proof fn law_shared_edge_partition(
    a: Vector3,
    b: Vector3,
    c: Vector3,
    d: Vector3,
    x: int,
    y: int,
)
    requires
        (signed_area(a, b, c) > 0 && signed_area(a, b, d) < 0) || (signed_area(a, b, c) < 0
            && signed_area(a, b, d) > 0),
    ensures
        !(covers(a, b, c, x, y) && covers(a, b, d, x, y)),
        on_open_segment(a, b, center(x), center(y)) ==> (covers(a, b, c, x, y) != covers(
            a,
            b,
            d,
            x,
            y,
        )),
{
    let (px, py) = (center(x), center(y));
    lemma_edge_reversed(a.x as int, a.y as int, b.x as int, b.y as int, px, py);
    if on_open_segment(a, b, px, py) {
        assert(b.x - a.x != 0 || b.y - a.y != 0) by (nonlinear_arith)
            requires
                (b.x - a.x) * (b.x - a.x) + (b.y - a.y) * (b.y - a.y) > 0,
        ;
        lemma_one_direction_owns(b.x - a.x, b.y - a.y);
        if signed_area(a, b, c) > 0 {
            lemma_inside_edge(a, b, c, px, py);
            lemma_inside_reversed(a, b, d, px, py);
        } else {
            lemma_inside_edge(a, b, d, px, py);
            lemma_inside_reversed(a, b, c, px, py);
        }
    }
}

/// The same for a triangle of negative area, which is drawn as `a c b`.
proof fn lemma_inside_reversed(a: Vector3, b: Vector3, c: Vector3, px: int, py: int)
    requires
        signed_area(a, b, c) < 0,
        on_open_segment(a, b, px, py),
    ensures
        edge(a.x as int, a.y as int, c.x as int, c.y as int, px, py) > 0,
        edge(c.x as int, c.y as int, b.x as int, b.y as int, px, py) > 0,
        edge(b.x as int, b.y as int, a.x as int, a.y as int, px, py) == 0,
{
    let (dx, dy) = (b.x - a.x, b.y - a.y);
    let (qx, qy) = (px - a.x, py - a.y);
    let (vx, vy) = (c.x - a.x, c.y - a.y);
    let dd = dx * dx + dy * dy;
    let dq = dx * qx + dy * qy;
    let area = signed_area(a, b, c);
    let ea = edge(b.x as int, b.y as int, c.x as int, c.y as int, px, py);
    let eb = edge(c.x as int, c.y as int, a.x as int, a.y as int, px, py);
    lemma_edge_sum(a.x as int, a.y as int, b.x as int, b.y as int, c.x as int, c.y as int, px, py);
    lemma_edge_reversed(a.x as int, a.y as int, b.x as int, b.y as int, px, py);
    lemma_edge_reversed(b.x as int, b.y as int, c.x as int, c.y as int, px, py);
    lemma_edge_reversed(c.x as int, c.y as int, a.x as int, a.y as int, px, py);
    lemma_cross_back(vx, vy, qx, qy);
    assert(eb == cross(qx, qy, vx, vy));
    assert(area == cross(dx, dy, vx, vy));
    lemma_collinear_cross(dx, dy, qx, qy, vx, vy);
    assert(eb < 0 && ea < 0) by (nonlinear_arith)
        requires
            dd * eb == dq * area,
            ea + eb == area,
            area < 0,
            0 < dq < dd,
    ;
}

/// Filtering keeps the elements of a sequence in their order: if a key
/// grows strictly along the sequence, it grows strictly along the filtered
/// sequence, and every element of the filtered sequence is an element of the
/// sequence that passes the filter.
proof fn lemma_filter_keeps_order<A>(s: Seq<A>, pred: spec_fn(A) -> bool, key: spec_fn(A) -> int)
    requires
        forall|i: int, j: int| 0 <= i < j < s.len() ==> key(s[i]) < key(s[j]),
    ensures
        forall|i: int, j: int|
            0 <= i < j < s.filter(pred).len() ==> key(#[trigger] s.filter(pred)[i]) < key(
                #[trigger] s.filter(pred)[j],
            ),
        forall|i: int|
            0 <= i < s.filter(pred).len() ==> s.contains(#[trigger] s.filter(pred)[i]) && pred(
                s.filter(pred)[i],
            ),
    decreases s.len(),
{
    reveal(Seq::filter);
    if s.len() > 0 {
        let front = s.drop_last();
        lemma_filter_keeps_order(front, pred, key);
        let kept = s.filter(pred);
        assert forall|i: int| 0 <= i < kept.len() implies s.contains(#[trigger] kept[i]) && pred(
            kept[i],
        ) by {
            if i < front.filter(pred).len() {
                assert(front.contains(front.filter(pred)[i]));
                let k = choose|k: int| 0 <= k < front.len() && front[k] == front.filter(pred)[i];
                assert(s[k] == kept[i]);
            } else {
                assert(s[s.len() - 1] == kept[i]);
            }
        }
        assert forall|i: int, j: int| 0 <= i < j < kept.len() implies key(#[trigger] kept[i])
            < key(#[trigger] kept[j]) by {
            if j >= front.filter(pred).len() {
                assert(front.contains(front.filter(pred)[i]));
                let k = choose|k: int| 0 <= k < front.len() && front[k] == front.filter(pred)[i];
                assert(s[k] == kept[i]);
                assert(kept[j] == s[s.len() - 1]);
            }
        }
    }
}

/// The key that orders pixels as the scan visits them.
pub open spec fn scan_key(a: Vector3, b: Vector3, c: Vector3) -> spec_fn((int, int)) -> int {
    |p: (int, int)| scan_index(a, b, c, p.0, p.1)
}

/// The scan visits the pixels of the bounding box in the order of their
/// index, each once.
proof fn lemma_scan_ordered(a: Vector3, b: Vector3, c: Vector3)
    ensures
        forall|i: int|
            0 <= i < scan(a, b, c).len() ==> scan_index(
                a,
                b,
                c,
                (#[trigger] scan(a, b, c)[i]).0,
                scan(a, b, c)[i].1,
            ) == i,
        forall|i: int|
            0 <= i < scan(a, b, c).len() ==> first_column(a, b, c) <= (#[trigger] scan(
                a,
                b,
                c,
            )[i]).0 <= last_column(a, b, c) && first_row(a, b, c) <= scan(a, b, c)[i].1
                <= last_row(a, b, c),
{
    let w = scan_width(a, b, c);
    let h = scan_height(a, b, c);
    assert forall|i: int| 0 <= i < scan(a, b, c).len() implies scan_index(
        a,
        b,
        c,
        (#[trigger] scan(a, b, c)[i]).0,
        scan(a, b, c)[i].1,
    ) == i && first_column(a, b, c) <= scan(a, b, c)[i].0 <= last_column(a, b, c) && first_row(
        a,
        b,
        c,
    ) <= scan(a, b, c)[i].1 <= last_row(a, b, c) by {
        assert(w > 0 && h > 0) by (nonlinear_arith)
            requires
                0 <= i < w * h,
                w >= 0 || h >= 0,
        ;
        vstd::arithmetic::div_mod::lemma_fundamental_div_mod(i, w);
        assert(w * (i / w) == (i / w) * w) by (nonlinear_arith);
        assert(0 <= i / w < h) by (nonlinear_arith)
            requires
                0 <= i < w * h,
                w > 0,
                i == (i / w) * w + i % w,
                0 <= i % w < w,
        ;
    }
}

/// The pixel that a fragment of the triangle belongs to.
pub open spec fn pixel_of_fragment(v1: Vertex, v2: Vertex, v3: Vertex, i: int) -> (int, int) {
    scan(v1.transformed_position, v2.transformed_position, v3.transformed_position).filter(
        covered_by(v1.transformed_position, v2.transformed_position, v3.transformed_position),
    )[i]
}

/// Every covered pixel of the screen plane gets a fragment.
pub proof fn law_covered_pixel_has_fragment(
    v1: Vertex,
    v2: Vertex,
    v3: Vertex,
    light: Light,
    x: int,
    y: int,
)
    requires
        covers(v1.transformed_position, v2.transformed_position, v3.transformed_position, x, y),
    ensures
        triangle_fragments(v1, v2, v3, light).contains(
            fragment_at(v1, v2, v3, light.spec_intensity(v1, v2, v3), x, y),
        ),
{
    let a = v1.transformed_position;
    let b = v2.transformed_position;
    let c = v3.transformed_position;
    let pred = covered_by(a, b, c);
    let shade = fragment_of(v1, v2, v3, light.spec_intensity(v1, v2, v3));
    lemma_covered_in_box(a, b, c, x, y);
    lemma_scan_index(a, b, c, x, y);
    let k = scan_index(a, b, c, x, y);
    assert(pred(scan(a, b, c)[k]));
    scan(a, b, c).lemma_filter_contains(pred, k);
    let kept = scan(a, b, c).filter(pred);
    let i = choose|i: int| 0 <= i < kept.len() && kept[i] == (x, y);
    assert(kept.map_values(shade)[i] == shade((x, y)));
}

/// Every fragment belongs to a covered pixel and is the fragment of that
/// pixel; its position names the pixel.
pub proof fn law_fragment_has_covered_pixel(
    v1: Vertex,
    v2: Vertex,
    v3: Vertex,
    light: Light,
    i: int,
) -> (p: (int, int))
    requires
        0 <= i < triangle_fragments(v1, v2, v3, light).len(),
    ensures
        p == pixel_of_fragment(v1, v2, v3, i),
        covers(v1.transformed_position, v2.transformed_position, v3.transformed_position, p.0, p.1),
        triangle_fragments(v1, v2, v3, light)[i] == fragment_at(
            v1,
            v2,
            v3,
            light.spec_intensity(v1, v2, v3),
            p.0,
            p.1,
        ),
        triangle_fragments(v1, v2, v3, light)[i].position.x == p.0 * ONE,
        triangle_fragments(v1, v2, v3, light)[i].position.y == p.1 * ONE,
{
    let a = v1.transformed_position;
    let b = v2.transformed_position;
    let c = v3.transformed_position;
    let pred = covered_by(a, b, c);
    let p = pixel_of_fragment(v1, v2, v3, i);
    scan(a, b, c).lemma_filter_pred(pred, i);
    lemma_covered_in_box(a, b, c, p.0, p.1);
    lemma_floor_div_bounds(min3(a.x as int, b.x as int, c.x as int), ONE as int);
    lemma_floor_div_bounds(max3(a.x as int, b.x as int, c.x as int), ONE as int);
    lemma_floor_div_bounds(min3(a.y as int, b.y as int, c.y as int), ONE as int);
    lemma_floor_div_bounds(max3(a.y as int, b.y as int, c.y as int), ONE as int);
    p
}

/// No pixel gets two fragments, and the fragments come in scan order: of
/// two fragments the earlier one lies in a row above the later one, or in
/// the same row to its left.
pub proof fn law_fragments_in_scan_order(
    v1: Vertex,
    v2: Vertex,
    v3: Vertex,
    light: Light,
    i: int,
    j: int,
)
    requires
        0 <= i < j < triangle_fragments(v1, v2, v3, light).len(),
    ensures
        ({
            let earlier = triangle_fragments(v1, v2, v3, light)[i].position;
            let later = triangle_fragments(v1, v2, v3, light)[j].position;
            earlier.y < later.y || (earlier.y == later.y && earlier.x < later.x)
        }),
{
    let a = v1.transformed_position;
    let b = v2.transformed_position;
    let c = v3.transformed_position;
    let pred = covered_by(a, b, c);
    let key = scan_key(a, b, c);
    let p = law_fragment_has_covered_pixel(v1, v2, v3, light, i);
    let q = law_fragment_has_covered_pixel(v1, v2, v3, light, j);
    lemma_scan_ordered(a, b, c);
    assert forall|m: int, n: int| 0 <= m < n < scan(a, b, c).len() implies key(scan(a, b, c)[m])
        < key(scan(a, b, c)[n]) by {}
    lemma_filter_keeps_order(scan(a, b, c), pred, key);
    let kept = scan(a, b, c).filter(pred);
    assert(key(kept[i]) < key(kept[j]));
    lemma_covered_in_box(a, b, c, p.0, p.1);
    lemma_covered_in_box(a, b, c, q.0, q.1);
    let w = scan_width(a, b, c);
    assert(p.1 < q.1 || (p.1 == q.1 && p.0 < q.0)) by (nonlinear_arith)
        requires
            (p.1 - first_row(a, b, c)) * w + (p.0 - first_column(a, b, c)) < (q.1 - first_row(
                a,
                b,
                c,
            )) * w + (q.0 - first_column(a, b, c)),
            0 <= p.0 - first_column(a, b, c) < w,
            0 <= q.0 - first_column(a, b, c) < w,
    ;
}

/// An attribute with the same value at all three vertices has that value
/// at every covered pixel. In particular a triangle of uniform depth gives
/// fragments of that depth.
pub proof fn law_constant_attribute(a: Vector3, b: Vector3, c: Vector3, x: int, y: int, f: i32)
    requires
        covers(a, b, c, x, y),
    ensures
        attribute_at(a, b, c, x, y, f, f, f) == f,
{
    lemma_attribute_bounds(a, b, c, x, y, f, f, f);
}

} // verus!
