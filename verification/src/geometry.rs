//! Plane geometry over the integers: the edge function, the cross product
//! and the identities that the rasterizer rests on.

use vstd::prelude::*;

verus! {

/// The edge function: twice the signed area of the triangle `s t p`. It is
/// positive on one side of the line from `s` to `t`, negative on the other
/// and zero on the line.
pub open spec fn edge(sx: int, sy: int, tx: int, ty: int, px: int, py: int) -> int {
    (tx - sx) * (py - sy) - (ty - sy) * (px - sx)
}

/// The cross product of two plane vectors.
pub open spec fn cross(ux: int, uy: int, vx: int, vy: int) -> int {
    ux * vy - uy * vx
}

/// Reversing an edge negates its edge function.
pub proof fn lemma_edge_reversed(sx: int, sy: int, tx: int, ty: int, px: int, py: int)
    by (nonlinear_arith)
    ensures
        edge(tx, ty, sx, sy, px, py) == -edge(sx, sy, tx, ty, px, py),
{
}

/// The edge function vanishes at both ends of the edge.
pub proof fn lemma_edge_self(sx: int, sy: int, tx: int, ty: int)
    by (nonlinear_arith)
    ensures
        edge(sx, sy, tx, ty, sx, sy) == 0,
        edge(sx, sy, tx, ty, tx, ty) == 0,
{
}

/// Swapping the two vectors negates their cross product.
proof fn lemma_cross_swap(ux: int, uy: int, vx: int, vy: int)
    by (nonlinear_arith)
    ensures
        cross(vx, vy, ux, uy) == -cross(ux, uy, vx, vy),
{
}

/// The cross product of two differences from a common vector.
proof fn lemma_cross_diff(ux: int, uy: int, vx: int, vy: int, qx: int, qy: int)
    by (nonlinear_arith)
    ensures
        cross(vx - ux, vy - uy, qx - ux, qy - uy) == cross(vx, vy, qx, qy) - cross(ux, uy, qx, qy)
            + cross(ux, uy, vx, vy),
{
}

/// The edge function of the edge that leads back to the origin.
pub(crate) proof fn lemma_cross_back(vx: int, vy: int, qx: int, qy: int)
    by (nonlinear_arith)
    ensures
        cross(-vx, -vy, qx - vx, qy - vy) == cross(qx, qy, vx, vy),
{
}

/// Products of four numbers can be regrouped.
proof fn lemma_four(a: int, b: int, c: int, d: int)
    by (nonlinear_arith)
    ensures
        (a * b) * (c * d) == (a * c) * (b * d),
        (a * b) * (c * d) == (c * b) * (a * d),
{
}

/// The cross products with `q` weight `u` and `v` so that they give back
/// the first coordinate of `q`, scaled by the cross product of `u` and `v`.
proof fn lemma_cross_weight(ux: int, uy: int, vx: int, vy: int, qx: int, qy: int)
    ensures
        cross(qx, qy, vx, vy) * ux + cross(ux, uy, qx, qy) * vx == cross(ux, uy, vx, vy) * qx,
{
    let a = qx * vy;
    let b = qy * vx;
    let c = ux * qy;
    let d = uy * qx;
    let e = ux * vy;
    let f = uy * vx;
    assert((a - b) * ux == a * ux - b * ux) by (nonlinear_arith);
    assert((c - d) * vx == c * vx - d * vx) by (nonlinear_arith);
    assert((e - f) * qx == e * qx - f * qx) by (nonlinear_arith);
    assert((qy * vx) * ux == (ux * qy) * vx) by (nonlinear_arith);
    assert((qx * vy) * ux == (ux * vy) * qx) by (nonlinear_arith);
    assert((uy * qx) * vx == (uy * vx) * qx) by (nonlinear_arith);
}

/// The three edge functions of a triangle add up to twice its signed area,
/// wherever the point lies.
pub proof fn lemma_edge_sum(
    ax: int,
    ay: int,
    bx: int,
    by: int,
    cx: int,
    cy: int,
    px: int,
    py: int,
)
    ensures
        edge(bx, by, cx, cy, px, py) + edge(cx, cy, ax, ay, px, py) + edge(ax, ay, bx, by, px, py)
            == edge(ax, ay, bx, by, cx, cy),
{
    lemma_cross_diff(bx - ax, by - ay, cx - ax, cy - ay, px - ax, py - ay);
    lemma_cross_back(cx - ax, cy - ay, px - ax, py - ay);
    lemma_cross_swap(px - ax, py - ay, cx - ax, cy - ay);
}

/// Three weights that add up to `area` and weight the differences from `a`
/// to `area * (p - a)` weight the values themselves to `area * p`.
proof fn lemma_recombine(
    ea: int,
    eb: int,
    ec: int,
    area: int,
    a: int,
    b: int,
    c: int,
    p: int,
)
    requires
        ea + eb + ec == area,
        eb * (b - a) + ec * (c - a) == area * (p - a),
    ensures
        ea * a + eb * b + ec * c == area * p,
{
    assert(eb * (b - a) == eb * b - eb * a) by (nonlinear_arith);
    assert(ec * (c - a) == ec * c - ec * a) by (nonlinear_arith);
    assert(area * (p - a) == area * p - area * a) by (nonlinear_arith);
    assert((ea + eb + ec) * a == ea * a + eb * a + ec * a) by (nonlinear_arith);
}

/// A weighted sum keeps its form when every weight and the total are
/// negated.
pub(crate) proof fn lemma_negated_products(
    ea: int,
    eb: int,
    ec: int,
    area: int,
    a: int,
    b: int,
    c: int,
    p: int,
)
    requires
        ea * a + eb * b + ec * c == area * p,
    ensures
        (-ea) * a + (-eb) * b + (-ec) * c == (-area) * p,
{
    assert((-ea) * a == -(ea * a)) by (nonlinear_arith);
    assert((-eb) * b == -(eb * b)) by (nonlinear_arith);
    assert((-ec) * c == -(ec * c)) by (nonlinear_arith);
    assert((-area) * p == -(area * p)) by (nonlinear_arith);
}

/// The edge functions are barycentric coordinates: weighting the vertices
/// with them gives back the point, scaled by twice the signed area.
pub proof fn lemma_barycentric(
    ax: int,
    ay: int,
    bx: int,
    by: int,
    cx: int,
    cy: int,
    px: int,
    py: int,
)
    ensures
        edge(bx, by, cx, cy, px, py) * ax + edge(cx, cy, ax, ay, px, py) * bx + edge(
            ax,
            ay,
            bx,
            by,
            px,
            py,
        ) * cx == edge(ax, ay, bx, by, cx, cy) * px,
        edge(bx, by, cx, cy, px, py) * ay + edge(cx, cy, ax, ay, px, py) * by + edge(
            ax,
            ay,
            bx,
            by,
            px,
            py,
        ) * cy == edge(ax, ay, bx, by, cx, cy) * py,
{
    let ea = edge(bx, by, cx, cy, px, py);
    let eb = edge(cx, cy, ax, ay, px, py);
    let ec = edge(ax, ay, bx, by, px, py);
    let area = edge(ax, ay, bx, by, cx, cy);
    let (ux, uy) = (bx - ax, by - ay);
    let (vx, vy) = (cx - ax, cy - ay);
    let (qx, qy) = (px - ax, py - ay);
    lemma_edge_sum(ax, ay, bx, by, cx, cy, px, py);
    lemma_cross_back(vx, vy, qx, qy);
    assert(eb == cross(qx, qy, vx, vy));
    assert(ec == cross(ux, uy, qx, qy));
    assert(area == cross(ux, uy, vx, vy));
    lemma_cross_weight(ux, uy, vx, vy, qx, qy);
    lemma_recombine(ea, eb, ec, area, ax, bx, cx, px);
    lemma_cross_weight(uy, ux, vy, vx, qy, qx);
    assert(cross(qy, qx, vy, vx) == -eb);
    assert(cross(uy, ux, qy, qx) == -ec);
    assert(cross(uy, ux, vy, vx) == -area);
    assert((-eb) * (by - ay) == -(eb * (by - ay))) by (nonlinear_arith);
    assert((-ec) * (cy - ay) == -(ec * (cy - ay))) by (nonlinear_arith);
    assert((-area) * (py - ay) == -(area * (py - ay))) by (nonlinear_arith);
    lemma_recombine(ea, eb, ec, area, ay, by, cy, py);
}

/// For a point `q` on the line through the origin and `d`, the cross
/// product with any `v` scales like the projection of `q` on `d`.
pub proof fn lemma_collinear_cross(dx: int, dy: int, qx: int, qy: int, vx: int, vy: int)
    requires
        cross(dx, dy, qx, qy) == 0,
    ensures
        (dx * dx + dy * dy) * cross(qx, qy, vx, vy) == (dx * qx + dy * qy) * cross(dx, dy, vx, vy),
{
    let dd = dx * dx + dy * dy;
    let dq = dx * qx + dy * qy;
    let qv = cross(qx, qy, vx, vy);
    let dv = cross(dx, dy, vx, vy);
    let dot_dv = dx * vx + dy * vy;
    // dd * qv == dq * dv - cross(d, q) * dot(d, v), and the cross product is zero.
    assert(dd * qv == (dx * dx) * (qx * vy) - (dx * dx) * (qy * vx) + (dy * dy) * (qx * vy) - (dy
        * dy) * (qy * vx)) by (nonlinear_arith)
        requires
            dd == dx * dx + dy * dy,
            qv == qx * vy - qy * vx,
    ;
    assert(dq * dv == (dx * qx) * (dx * vy) - (dx * qx) * (dy * vx) + (dy * qy) * (dx * vy) - (dy
        * qy) * (dy * vx)) by (nonlinear_arith)
        requires
            dq == dx * qx + dy * qy,
            dv == dx * vy - dy * vx,
    ;
    assert((dx * qy - dy * qx) * dot_dv == (dx * qy) * (dx * vx) + (dx * qy) * (dy * vy) - (dy
        * qx) * (dx * vx) - (dy * qx) * (dy * vy)) by (nonlinear_arith)
        requires
            dot_dv == dx * vx + dy * vy,
    ;
    assert((dx * qy - dy * qx) * dot_dv == 0) by (nonlinear_arith)
        requires
            dx * qy - dy * qx == 0,
    ;
    lemma_four(dx, qx, dx, vy);
    lemma_four(dx, qx, dy, vx);
    lemma_four(dy, qy, dx, vy);
    lemma_four(dy, qy, dy, vx);
    lemma_four(dx, qy, dx, vx);
    lemma_four(dx, qy, dy, vy);
    lemma_four(dy, qx, dx, vx);
    lemma_four(dy, qx, dy, vy);
}

/// A mean with nonnegative weights lies between the smallest and the
/// largest of the values.
pub proof fn lemma_weighted_mean_bounds(
    wa: int,
    wb: int,
    wc: int,
    fa: int,
    fb: int,
    fc: int,
    lo: int,
    hi: int,
)
    by (nonlinear_arith)
    requires
        wa >= 0,
        wb >= 0,
        wc >= 0,
        lo <= fa <= hi,
        lo <= fb <= hi,
        lo <= fc <= hi,
    ensures
        (wa + wb + wc) * lo <= wa * fa + wb * fb + wc * fc <= (wa + wb + wc) * hi,
{
}

/// A positive factor can be cancelled from an inequality.
pub(crate) proof fn lemma_cancel_positive(w: int, m: int, p: int)
    by (nonlinear_arith)
    requires
        w > 0,
        w * m <= w * p,
    ensures
        m <= p,
{
}

} // verus!
