//! The draw call: vertex stage, triangle assembly, rasterization, fragment
//! stage and frame buffer writes, in that order.
//!
//! The fragment program is a parameter of the draw call. It sees each
//! fragment once, in the order in which the rasterizer produced it, and
//! gives the colour that is offered to the frame buffer.

use crate::fixed::ONE;
use crate::fragment::Fragment;
use crate::framebuffer::lemma_point_changes_one_pixel;
use crate::framebuffer::Depth;
use crate::framebuffer::Frame;
use crate::framebuffer::Framebuffer;
use crate::framebuffer::Pixel;
use crate::light::Light;
use crate::shaders::spec_vertex_shader;
use crate::shaders::spec_vertex_shader_at;
use crate::shaders::vertex_shader;
use crate::shaders::vertex_shader_at;
use crate::shaders::Uniforms;
use crate::triangle::law_fragment_has_covered_pixel;
use crate::triangle::law_fragments_in_scan_order;
use crate::triangle::triangle;
use crate::triangle::triangle_fragments;
use crate::vector::Vector3;
use crate::vertex::Vertex;
use vstd::prelude::*;

verus! {

/// The pixel column or row that a fragment coordinate names: its whole
/// part, rounded toward zero.
pub open spec fn pixel_coordinate(v: i32) -> int {
    if v >= 0 {
        v as int / ONE as int
    } else {
        -((-v) / ONE as int)
    }
}

/// The vertex list after the vertex stage.
pub open spec fn transformed(vertices: Seq<Vertex>, uniforms: Uniforms) -> Seq<Vertex> {
    vertices.map_values(|v: Vertex| spec_vertex_shader(v, uniforms))
}

/// The vertex list after a vertex stage that transforms, for each vertex,
/// the position given for it.
pub open spec fn transformed_at(vertices: Seq<Vertex>, positions: Seq<Vector3>, uniforms: Uniforms)
    -> Seq<Vertex> {
    Seq::new(vertices.len(), |i: int| spec_vertex_shader_at(vertices[i], positions[i], uniforms))
}

/// The fragments of each triangle of a vertex list. Three consecutive
/// vertices make a triangle; one or two vertices left over at the end make
/// none.
pub open spec fn fragments_by_triangle(vertices: Seq<Vertex>, light: Light) -> Seq<Seq<Fragment>> {
    Seq::new(
        vertices.len() / 3,
        |k: int| triangle_fragments(vertices[3 * k], vertices[3 * k + 1], vertices[3 * k + 2], light),
    )
}

/// The fragments of a vertex list: those of its first triangle, then those
/// of its second, and so on.
pub open spec fn rasterized(vertices: Seq<Vertex>, light: Light) -> Seq<Fragment> {
    fragments_by_triangle(vertices, light).flatten()
}

/// The frame after the fragments have been offered to it one after the
/// other, each with its colour.
pub open spec fn written(frame: Frame, fragments: Seq<Fragment>, colors: Seq<Vector3>) -> Frame
    decreases fragments.len(),
{
    if fragments.len() == 0 {
        frame
    } else {
        written(frame, fragments.drop_last(), colors.drop_last()).point(
            pixel_coordinate(fragments.last().position.x),
            pixel_coordinate(fragments.last().position.y),
            colors.last(),
            fragments.last().depth,
        )
    }
}

/// The fragments that a draw call produces from a vertex list: every vertex
/// goes through the vertex stage, and every triangle is rasterized.
pub open spec fn drawn_fragments(vertices: Seq<Vertex>, uniforms: Uniforms, light: Light) -> Seq<
    Fragment,
> {
    rasterized(transformed(vertices, uniforms), light)
}

/// Whether `colors` holds, for each fragment, a colour that the fragment
/// program may give for it.
pub open spec fn shaded_by<F: Fn(Fragment) -> Vector3>(
    shade: F,
    fragments: Seq<Fragment>,
    colors: Seq<Vector3>,
) -> bool {
    &&& colors.len() == fragments.len()
    &&& forall|i: int|
        0 <= i < fragments.len() ==> call_ensures(shade, (fragments[i],), #[trigger] colors[i])
}

/// Whether `positions` holds, for each vertex, a position that the vertex
/// displacement may give for it.
pub open spec fn displaced_by<D: Fn(Vertex) -> Vector3>(
    displace: D,
    vertices: Seq<Vertex>,
    positions: Seq<Vector3>,
) -> bool {
    &&& positions.len() == vertices.len()
    &&& forall|i: int|
        0 <= i < vertices.len() ==> call_ensures(displace, (vertices[i],), #[trigger] positions[i])
}

/// Runs the vertex stage on every vertex of the list.
pub fn transform_vertices(vertex_array: &Vec<Vertex>, uniforms: &Uniforms) -> (result: Vec<Vertex>)
    ensures
        result@ == transformed(vertex_array@, *uniforms),
{
    let mut result: Vec<Vertex> = Vec::new();
    let mut i: usize = 0;
    while i < vertex_array.len()
        invariant
            i <= vertex_array@.len(),
            result@.len() == i,
            forall|k: int|
                0 <= k < i ==> result@[k] == spec_vertex_shader(vertex_array@[k], *uniforms),
        decreases vertex_array@.len() - i,
    {
        result.push(vertex_shader(&vertex_array[i], uniforms));
        i = i + 1;
    }
    assert(result@ =~= transformed(vertex_array@, *uniforms));
    result
}

/// Assembles the transformed vertices into triangles and rasterizes one
/// triangle after the other.
pub fn rasterize(vertices: &Vec<Vertex>, light: &Light) -> (fragments: Vec<Fragment>)
    ensures
        fragments@ == rasterized(vertices@, *light),
{
    let total = vertices.len();
    let count = total / 3;
    let ghost pieces = fragments_by_triangle(vertices@, *light);
    let mut fragments: Vec<Fragment> = Vec::new();
    let mut k: usize = 0;
    assert(pieces.take(0) =~= Seq::<Seq<Fragment>>::empty());
    while k < count
        invariant
            k <= count,
            total == vertices@.len(),
            count == total / 3,
            pieces == fragments_by_triangle(vertices@, *light),
            fragments@ == pieces.take(k as int).flatten(),
        decreases count - k,
    {
        let mut piece = triangle(&vertices[3 * k], &vertices[3 * k + 1], &vertices[3 * k + 2], light);
        proof {
            assert(pieces.take(k + 1) =~= pieces.take(k as int).push(piece@));
            pieces.take(k as int).lemma_flatten_push(piece@);
        }
        fragments.append(&mut piece);
        k = k + 1;
    }
    assert(pieces.take(count as int) =~= pieces);
    fragments
}

/// Offers the fragments to the frame buffer in turn, the `i`-th with the
/// `i`-th colour, at the pixel that its position names.
pub fn write_fragments(framebuffer: &mut Framebuffer, fragments: &Vec<Fragment>, colors: &Vec<Vector3>)
    requires
        fragments@.len() == colors@.len(),
    ensures
        final(framebuffer)@ == written(old(framebuffer)@, fragments@, colors@),
{
    let mut i: usize = 0;
    assert(fragments@.take(0) =~= Seq::<Fragment>::empty());
    while i < fragments.len()
        invariant
            i <= fragments@.len(),
            fragments@.len() == colors@.len(),
            framebuffer@ == written(old(framebuffer)@, fragments@.take(i as int), colors@.take(i as int)),
        decreases fragments@.len() - i,
    {
        let fragment = fragments[i];
        proof {
            assert(fragments@.take(i + 1).drop_last() =~= fragments@.take(i as int));
            assert(colors@.take(i + 1).drop_last() =~= colors@.take(i as int));
        }
        framebuffer.point(
            fragment.position.x / 65536,
            fragment.position.y / 65536,
            colors[i],
            fragment.depth,
        );
        i = i + 1;
    }
    assert(fragments@.take(fragments@.len() as int) =~= fragments@);
    assert(colors@.take(colors@.len() as int) =~= colors@);
}

/// Runs the fragment program on every fragment.
pub fn shade_fragments<F: Fn(Fragment) -> Vector3>(fragments: &Vec<Fragment>, shade: &F) -> (colors:
    Vec<Vector3>)
    requires
        forall|f: Fragment| call_requires(*shade, (f,)),
    ensures
        shaded_by(*shade, fragments@, colors@),
{
    let mut colors: Vec<Vector3> = Vec::new();
    let mut i: usize = 0;
    while i < fragments.len()
        invariant
            i <= fragments@.len(),
            colors@.len() == i,
            forall|f: Fragment| call_requires(*shade, (f,)),
            forall|k: int| 0 <= k < i ==> call_ensures(*shade, (fragments@[k],), #[trigger] colors@[k]),
        decreases fragments@.len() - i,
    {
        colors.push(shade(fragments[i]));
        i = i + 1;
    }
    colors
}

/// Draws a mesh. Every vertex of the list goes through the vertex stage;
/// every three of them make a triangle, and one or two left over at the end
/// make none. The triangles are rasterized in turn, every fragment is
/// coloured by `shade`, and the coloured fragments are offered to the frame
/// buffer in the order in which they were produced.
pub fn render<F: Fn(Fragment) -> Vector3>(
    framebuffer: &mut Framebuffer,
    uniforms: &Uniforms,
    vertex_array: &Vec<Vertex>,
    light: &Light,
    shade: F,
)
    requires
        forall|f: Fragment| call_requires(shade, (f,)),
    ensures
        exists|colors: Seq<Vector3>| #[trigger]
            shaded_by(shade, drawn_fragments(vertex_array@, *uniforms, *light), colors)
                && final(framebuffer)@ == written(
                old(framebuffer)@,
                drawn_fragments(vertex_array@, *uniforms, *light),
                colors,
            ),
{
    let transformed_vertices = transform_vertices(vertex_array, uniforms);
    let fragments = rasterize(&transformed_vertices, light);
    let colors = shade_fragments(&fragments, &shade);
    write_fragments(framebuffer, &fragments, &colors);
    assert(shaded_by(shade, drawn_fragments(vertex_array@, *uniforms, *light), colors@));
}

/// Draws a mesh whose vertices are displaced before they are projected.
/// `displace` gives, for each vertex, the model-space position that goes
/// through the transform chain in place of its own; the vertex keeps its
/// own position, which the fragments interpolate. All the vertices of the
/// list are drawn.
pub fn render_sun<D: Fn(Vertex) -> Vector3, F: Fn(Fragment) -> Vector3>(
    framebuffer: &mut Framebuffer,
    uniforms: &Uniforms,
    vertex_array: &Vec<Vertex>,
    light: &Light,
    displace: D,
    shade: F,
)
    requires
        forall|v: Vertex| call_requires(displace, (v,)),
        forall|f: Fragment| call_requires(shade, (f,)),
    ensures
        exists|positions: Seq<Vector3>, colors: Seq<Vector3>| #[trigger]
            shaded_by(
                shade,
                rasterized(transformed_at(vertex_array@, positions, *uniforms), *light),
                colors,
            ) && displaced_by(displace, vertex_array@, positions) && final(framebuffer)@
                == written(
                old(framebuffer)@,
                rasterized(transformed_at(vertex_array@, positions, *uniforms), *light),
                colors,
            ),
{
    let mut transformed_vertices: Vec<Vertex> = Vec::new();
    let ghost mut positions: Seq<Vector3> = Seq::empty();
    let mut i: usize = 0;
    while i < vertex_array.len()
        invariant
            i <= vertex_array@.len(),
            transformed_vertices@.len() == i,
            positions.len() == i,
            forall|v: Vertex| call_requires(displace, (v,)),
            forall|k: int|
                0 <= k < i ==> call_ensures(displace, (vertex_array@[k],), #[trigger] positions[k]),
            forall|k: int|
                0 <= k < i ==> transformed_vertices@[k] == spec_vertex_shader_at(
                    vertex_array@[k],
                    positions[k],
                    *uniforms,
                ),
        decreases vertex_array@.len() - i,
    {
        let position = displace(vertex_array[i]);
        transformed_vertices.push(vertex_shader_at(&vertex_array[i], position, uniforms));
        proof {
            positions = positions.push(position);
        }
        i = i + 1;
    }
    assert(transformed_vertices@ =~= transformed_at(vertex_array@, positions, *uniforms));
    let fragments = rasterize(&transformed_vertices, light);
    let colors = shade_fragments(&fragments, &shade);
    write_fragments(framebuffer, &fragments, &colors);
    assert(displaced_by(displace, vertex_array@, positions));
    assert(shaded_by(shade, fragments@, colors@));
}

/// Whether the fragment is offered to the pixel `(x, y)`.
pub open spec fn lands_on(fragment: Fragment, x: int, y: int) -> bool {
    pixel_coordinate(fragment.position.x) == x && pixel_coordinate(fragment.position.y) == y
}

/// Writing fragments keeps a frame well formed and leaves its size and
/// background as they are.
pub proof fn lemma_written_frame(frame: Frame, fragments: Seq<Fragment>, colors: Seq<Vector3>)
    requires
        frame.wf(),
    ensures
        written(frame, fragments, colors).wf(),
        written(frame, fragments, colors).width == frame.width,
        written(frame, fragments, colors).height == frame.height,
        written(frame, fragments, colors).background == frame.background,
    decreases fragments.len(),
{
    if fragments.len() > 0 {
        lemma_written_frame(frame, fragments.drop_last(), colors.drop_last());
        let before = written(frame, fragments.drop_last(), colors.drop_last());
        let last = fragments.last();
        if before.in_bounds(
            pixel_coordinate(last.position.x),
            pixel_coordinate(last.position.y),
        ) {
            lemma_point_changes_one_pixel(
                before,
                pixel_coordinate(last.position.x),
                pixel_coordinate(last.position.y),
                colors.last(),
                last.depth,
                pixel_coordinate(last.position.x),
                pixel_coordinate(last.position.y),
            );
        }
    }
}

/// Every pixel holds the nearest of what was offered to it. After any
/// sequence of fragments has been written, a pixel is no farther than it
/// was before and no farther than any fragment that was offered to it; and
/// it holds either what it held before or the colour and depth of one of
/// those fragments, which then was nearer than what it held before.
pub proof fn law_pixel_holds_the_nearest(
    frame: Frame,
    fragments: Seq<Fragment>,
    colors: Seq<Vector3>,
    x: int,
    y: int,
)
    requires
        frame.wf(),
        frame.in_bounds(x, y),
        colors.len() == fragments.len(),
    ensures
        forall|i: int|
            0 <= i < fragments.len() && lands_on(#[trigger] fragments[i], x, y) ==> !written(
                frame,
                fragments,
                colors,
            ).pixel(x, y).depth.is_behind(fragments[i].depth),
        forall|depth: i32|
            !frame.pixel(x, y).depth.is_behind(depth) ==> !#[trigger] written(
                frame,
                fragments,
                colors,
            ).pixel(x, y).depth.is_behind(depth),
        written(frame, fragments, colors).pixel(x, y) == frame.pixel(x, y) || exists|i: int|
            0 <= i < fragments.len() && lands_on(#[trigger] fragments[i], x, y) && frame.pixel(
                x,
                y,
            ).depth.is_behind(fragments[i].depth) && written(frame, fragments, colors).pixel(x, y)
                == (Pixel { color: colors[i], depth: Depth::Finite(fragments[i].depth) }),
    decreases fragments.len(),
{
    if fragments.len() > 0 {
        let front = fragments.drop_last();
        let front_colors = colors.drop_last();
        let before = written(frame, front, front_colors);
        let after = written(frame, fragments, colors);
        let last = fragments.last();
        let (lx, ly) = (pixel_coordinate(last.position.x), pixel_coordinate(last.position.y));
        law_pixel_holds_the_nearest(frame, front, front_colors, x, y);
        lemma_written_frame(frame, front, front_colors);
        lemma_point_changes_one_pixel(before, lx, ly, colors.last(), last.depth, x, y);
        assert forall|i: int|
            0 <= i < fragments.len() && lands_on(#[trigger] fragments[i], x, y) implies !after.pixel(
            x,
            y,
        ).depth.is_behind(fragments[i].depth) by {
            if i < front.len() {
                assert(front[i] == fragments[i]);
            }
        }
        if after.pixel(x, y) != frame.pixel(x, y) {
            if after.pixel(x, y) == before.pixel(x, y) {
                let i = choose|i: int|
                    0 <= i < front.len() && lands_on(#[trigger] front[i], x, y) && frame.pixel(
                        x,
                        y,
                    ).depth.is_behind(front[i].depth) && before.pixel(x, y) == (Pixel {
                        color: front_colors[i],
                        depth: Depth::Finite(front[i].depth),
                    });
                assert(lands_on(fragments[i], x, y) && colors[i] == front_colors[i]);
            } else {
                assert(lands_on(fragments[fragments.len() - 1], x, y));
            }
        }
    }
}

/// Whether the sequence offers the fragment with the colour.
pub open spec fn is_offered(
    fragment: Fragment,
    color: Vector3,
    fragments: Seq<Fragment>,
    colors: Seq<Vector3>,
) -> bool {
    exists|j: int| 0 <= j < fragments.len() && #[trigger] fragments[j] == fragment && colors[j] == color
}

/// Whether every fragment of the first sequence, with its colour, is also
/// in the second.
pub open spec fn offered_in(
    fragments: Seq<Fragment>,
    colors: Seq<Vector3>,
    other_fragments: Seq<Fragment>,
    other_colors: Seq<Vector3>,
) -> bool {
    forall|i: int|
        0 <= i < fragments.len() ==> is_offered(
            #[trigger] fragments[i],
            colors[i],
            other_fragments,
            other_colors,
        )
}

/// Whether fragments that are offered to the same pixel at the same depth
/// have the same colour.
pub open spec fn ties_agree(fragments: Seq<Fragment>, colors: Seq<Vector3>) -> bool {
    forall|i: int, j: int|
        0 <= i < fragments.len() && 0 <= j < fragments.len() && pixel_coordinate(
            fragments[i].position.x,
        ) == pixel_coordinate(fragments[j].position.x) && pixel_coordinate(fragments[i].position.y)
            == pixel_coordinate(fragments[j].position.y) && fragments[i].depth
            == fragments[j].depth ==> #[trigger] colors[i] == #[trigger] colors[j]
}

/// The image does not depend on the order of submission. If two sequences
/// offer the same fragments with the same colours, in whatever order and
/// however often, and fragments that tie in depth on a pixel agree in
/// colour, then both leave the same frame.
pub proof fn law_image_ignores_submission_order(
    frame: Frame,
    fragments: Seq<Fragment>,
    colors: Seq<Vector3>,
    other_fragments: Seq<Fragment>,
    other_colors: Seq<Vector3>,
)
    requires
        frame.wf(),
        colors.len() == fragments.len(),
        other_colors.len() == other_fragments.len(),
        offered_in(fragments, colors, other_fragments, other_colors),
        offered_in(other_fragments, other_colors, fragments, colors),
        ties_agree(fragments, colors),
    ensures
        written(frame, fragments, colors) == written(frame, other_fragments, other_colors),
{
    let one = written(frame, fragments, colors);
    let other = written(frame, other_fragments, other_colors);
    lemma_written_frame(frame, fragments, colors);
    lemma_written_frame(frame, other_fragments, other_colors);
    assert forall|k: int| 0 <= k < one.pixels.len() implies one.pixels[k] == other.pixels[k] by {
        let w = frame.width as int;
        let h = frame.height as int;
        assert(w > 0 && h > 0) by (nonlinear_arith)
            requires
                0 <= k < w * h,
                0 <= w,
                0 <= h,
        ;
        let (x, y) = (k % w, k / w);
        vstd::arithmetic::div_mod::lemma_fundamental_div_mod(k, w);
        assert(w * (k / w) == (k / w) * w) by (nonlinear_arith);
        assert(0 <= y < h) by (nonlinear_arith)
            requires
                0 <= k < w * h,
                w > 0,
                k == y * w + x,
                0 <= x < w,
        ;
        assert(frame.index(x, y) == k);
        lemma_same_pixel(frame, fragments, colors, other_fragments, other_colors, x, y);
    }
    assert(one.pixels =~= other.pixels);
}

/// The two frames of [`law_image_ignores_submission_order`] agree on one
/// pixel.
proof fn lemma_same_pixel(
    frame: Frame,
    fragments: Seq<Fragment>,
    colors: Seq<Vector3>,
    other_fragments: Seq<Fragment>,
    other_colors: Seq<Vector3>,
    x: int,
    y: int,
)
    requires
        frame.wf(),
        frame.in_bounds(x, y),
        colors.len() == fragments.len(),
        other_colors.len() == other_fragments.len(),
        offered_in(fragments, colors, other_fragments, other_colors),
        offered_in(other_fragments, other_colors, fragments, colors),
        ties_agree(fragments, colors),
    ensures
        written(frame, fragments, colors).pixel(x, y) == written(
            frame,
            other_fragments,
            other_colors,
        ).pixel(x, y),
{
    let one = written(frame, fragments, colors).pixel(x, y);
    let other = written(frame, other_fragments, other_colors).pixel(x, y);
    let start = frame.pixel(x, y);
    law_pixel_holds_the_nearest(frame, fragments, colors, x, y);
    law_pixel_holds_the_nearest(frame, other_fragments, other_colors, x, y);
    if one != start {
        let i = choose|i: int|
            0 <= i < fragments.len() && lands_on(#[trigger] fragments[i], x, y)
                && start.depth.is_behind(fragments[i].depth) && one == (Pixel {
                color: colors[i],
                depth: Depth::Finite(fragments[i].depth),
            });
        // The same fragment was offered in the other sequence.
        assert(is_offered(fragments[i], colors[i], other_fragments, other_colors));
        let j = choose|j: int|
            0 <= j < other_fragments.len() && #[trigger] other_fragments[j] == fragments[i]
                && other_colors[j] == colors[i];
        assert(lands_on(other_fragments[j], x, y));
        assert(other != start);
    }
    if other != start {
        let k = choose|k: int|
            0 <= k < other_fragments.len() && lands_on(#[trigger] other_fragments[k], x, y)
                && start.depth.is_behind(other_fragments[k].depth) && other == (Pixel {
                color: other_colors[k],
                depth: Depth::Finite(other_fragments[k].depth),
            });
        assert(is_offered(other_fragments[k], other_colors[k], fragments, colors));
        let m = choose|m: int|
            0 <= m < fragments.len() && #[trigger] fragments[m] == other_fragments[k] && colors[m]
                == other_colors[k];
        assert(lands_on(fragments[m], x, y));
        assert(one != start);
        let i = choose|i: int|
            0 <= i < fragments.len() && lands_on(#[trigger] fragments[i], x, y)
                && start.depth.is_behind(fragments[i].depth) && one == (Pixel {
                color: colors[i],
                depth: Depth::Finite(fragments[i].depth),
            });
        assert(is_offered(fragments[i], colors[i], other_fragments, other_colors));
        let j = choose|j: int|
            0 <= j < other_fragments.len() && #[trigger] other_fragments[j] == fragments[i]
                && other_colors[j] == colors[i];
        assert(lands_on(other_fragments[j], x, y));
        // Each of the two depths is no farther than the other.
        assert(fragments[i].depth == fragments[m].depth);
        assert(colors[i] == colors[m]);
    }
}

/// The vertex stage works vertex by vertex: a list made of two lists is
/// transformed into the two transformed lists, one after the other.
pub proof fn lemma_transformed_concat(a: Seq<Vertex>, b: Seq<Vertex>, uniforms: Uniforms)
    ensures
        transformed(a + b, uniforms) == transformed(a, uniforms) + transformed(b, uniforms),
{
    assert(transformed(a + b, uniforms) =~= transformed(a, uniforms) + transformed(b, uniforms));
}

/// Rasterization works triangle by triangle: if the first of two vertex
/// lists holds whole triangles only, the fragments of the two lists joined
/// are the fragments of the first followed by those of the second.
pub proof fn lemma_rasterized_concat(a: Seq<Vertex>, b: Seq<Vertex>, light: Light)
    requires
        a.len() % 3 == 0,
    ensures
        rasterized(a + b, light) == rasterized(a, light) + rasterized(b, light),
{
    let joined = fragments_by_triangle(a + b, light);
    let first = fragments_by_triangle(a, light);
    let second = fragments_by_triangle(b, light);
    let count = a.len() / 3;
    assert(joined.len() == first.len() + second.len());
    assert forall|k: int| 0 <= k < joined.len() implies joined[k] == (first + second)[k] by {
        if k < count {
            assert((a + b)[3 * k] == a[3 * k]);
            assert((a + b)[3 * k + 1] == a[3 * k + 1]);
            assert((a + b)[3 * k + 2] == a[3 * k + 2]);
        } else {
            let m = k - count;
            assert((a + b)[3 * k] == b[3 * m]);
            assert((a + b)[3 * k + 1] == b[3 * m + 1]);
            assert((a + b)[3 * k + 2] == b[3 * m + 2]);
        }
    }
    assert(joined =~= first + second);
    vstd::seq_lib::lemma_flatten_concat(first, second);
}

/// What two sequences offer one after the other, they also offer in the
/// other order.
proof fn lemma_offered_swapped(
    fragments: Seq<Fragment>,
    colors: Seq<Vector3>,
    other_fragments: Seq<Fragment>,
    other_colors: Seq<Vector3>,
)
    requires
        colors.len() == fragments.len(),
        other_colors.len() == other_fragments.len(),
    ensures
        offered_in(
            fragments + other_fragments,
            colors + other_colors,
            other_fragments + fragments,
            other_colors + colors,
        ),
{
    let joined = fragments + other_fragments;
    let joined_colors = colors + other_colors;
    let swapped = other_fragments + fragments;
    let swapped_colors = other_colors + colors;
    assert forall|i: int| 0 <= i < joined.len() implies is_offered(
        #[trigger] joined[i],
        joined_colors[i],
        swapped,
        swapped_colors,
    ) by {
        let j = if i < fragments.len() {
            other_fragments.len() + i
        } else {
            i - fragments.len()
        };
        assert(swapped[j] == joined[i] && swapped_colors[j] == joined_colors[i]);
    }
}

/// Two meshes may be drawn in either order. Let `a` and `b` be lists of
/// whole triangles, and let `shade` give each fragment its colour. If
/// fragments that tie in depth on a pixel agree in colour (as they do where
/// overlapping fragments differ in depth), then drawing `a` before `b`
/// leaves the same frame as drawing `b` before `a`. By
/// [`law_pixel_holds_the_nearest`] every pixel then holds the nearest of
/// the fragments that were offered to it.
pub proof fn law_draw_order(
    frame: Frame,
    uniforms: Uniforms,
    light: Light,
    a: Seq<Vertex>,
    b: Seq<Vertex>,
    shade: spec_fn(Fragment) -> Vector3,
)
    requires
        frame.wf(),
        a.len() % 3 == 0,
        b.len() % 3 == 0,
        ties_agree(
            drawn_fragments(a + b, uniforms, light),
            drawn_fragments(a + b, uniforms, light).map_values(shade),
        ),
    ensures
        written(
            frame,
            drawn_fragments(a + b, uniforms, light),
            drawn_fragments(a + b, uniforms, light).map_values(shade),
        ) == written(
            frame,
            drawn_fragments(b + a, uniforms, light),
            drawn_fragments(b + a, uniforms, light).map_values(shade),
        ),
{
    let of_a = drawn_fragments(a, uniforms, light);
    let of_b = drawn_fragments(b, uniforms, light);
    let colors_a = of_a.map_values(shade);
    let colors_b = of_b.map_values(shade);
    lemma_drawn_concat(a, b, uniforms, light);
    lemma_drawn_concat(b, a, uniforms, light);
    assert((of_a + of_b).map_values(shade) =~= colors_a + colors_b);
    assert((of_b + of_a).map_values(shade) =~= colors_b + colors_a);
    lemma_offered_swapped(of_a, colors_a, of_b, colors_b);
    lemma_offered_swapped(of_b, colors_b, of_a, colors_a);
    law_image_ignores_submission_order(
        frame,
        of_a + of_b,
        colors_a + colors_b,
        of_b + of_a,
        colors_b + colors_a,
    );
}

/// The fragments of two vertex lists drawn as one, the first of which holds
/// whole triangles only.
pub proof fn lemma_drawn_concat(a: Seq<Vertex>, b: Seq<Vertex>, uniforms: Uniforms, light: Light)
    requires
        a.len() % 3 == 0,
    ensures
        drawn_fragments(a + b, uniforms, light) == drawn_fragments(a, uniforms, light)
            + drawn_fragments(b, uniforms, light),
{
    lemma_transformed_concat(a, b, uniforms);
    lemma_rasterized_concat(transformed(a, uniforms), transformed(b, uniforms), light);
}

/// A fragment program that computes a function of the fragment leaves no
/// choice of colours: the colours of a draw call are that function applied
/// to its fragments.
pub proof fn lemma_shaded_by_function<F: Fn(Fragment) -> Vector3>(
    shade: F,
    colour: spec_fn(Fragment) -> Vector3,
    fragments: Seq<Fragment>,
    colors: Seq<Vector3>,
)
    requires
        shaded_by(shade, fragments, colors),
        forall|f: Fragment, c: Vector3| call_ensures(shade, (f,), c) ==> c == colour(f),
    ensures
        colors == fragments.map_values(colour),
{
    assert(colors =~= fragments.map_values(colour));
}

/// Whether two fragments are offered to the same pixel.
pub open spec fn same_pixel(one: Fragment, other: Fragment) -> bool {
    pixel_coordinate(one.position.x) == pixel_coordinate(other.position.x) && pixel_coordinate(
        one.position.y,
    ) == pixel_coordinate(other.position.y)
}

/// Whether the fragments of two sequences differ in depth wherever they
/// overlap: no fragment of the one has the pixel and the depth of a
/// fragment of the other.
pub open spec fn never_tie(fragments: Seq<Fragment>, other_fragments: Seq<Fragment>) -> bool {
    forall|i: int, j: int|
        0 <= i < fragments.len() && 0 <= j < other_fragments.len() && same_pixel(
            #[trigger] fragments[i],
            #[trigger] other_fragments[j],
        ) ==> fragments[i].depth != other_fragments[j].depth
}

/// A triangle offers at most one fragment to a pixel.
pub proof fn lemma_one_fragment_per_pixel(
    v1: Vertex,
    v2: Vertex,
    v3: Vertex,
    light: Light,
    i: int,
    j: int,
)
    requires
        0 <= i < triangle_fragments(v1, v2, v3, light).len(),
        0 <= j < triangle_fragments(v1, v2, v3, light).len(),
        same_pixel(triangle_fragments(v1, v2, v3, light)[i], triangle_fragments(v1, v2, v3, light)[j]),
    ensures
        i == j,
{
    let p = law_fragment_has_covered_pixel(v1, v2, v3, light, i);
    let q = law_fragment_has_covered_pixel(v1, v2, v3, light, j);
    lemma_whole_pixel(p.0);
    lemma_whole_pixel(p.1);
    lemma_whole_pixel(q.0);
    lemma_whole_pixel(q.1);
    if i < j {
        law_fragments_in_scan_order(v1, v2, v3, light, i, j);
    } else if j < i {
        law_fragments_in_scan_order(v1, v2, v3, light, j, i);
    }
}

/// The coordinate of a whole pixel names that pixel.
proof fn lemma_whole_pixel(p: int)
    requires
        -32768 <= p <= 32767,
    ensures
        pixel_coordinate((p * ONE) as i32) == p,
{
    assert(p * 65536 == 65536 * p);
}

/// The fragments of a single triangle, drawn as a vertex list of three.
proof fn lemma_drawn_triangle(a: Seq<Vertex>, uniforms: Uniforms, light: Light)
    requires
        a.len() == 3,
    ensures
        drawn_fragments(a, uniforms, light) == triangle_fragments(
            spec_vertex_shader(a[0], uniforms),
            spec_vertex_shader(a[1], uniforms),
            spec_vertex_shader(a[2], uniforms),
            light,
        ),
{
    let pieces = fragments_by_triangle(transformed(a, uniforms), light);
    assert(pieces.len() == 1);
    pieces.lemma_flatten_one_element();
}

/// Two triangles may be drawn in either order. If the fragments of the two
/// differ in depth wherever they overlap, then drawing the one before the
/// other leaves the same frame as drawing them the other way round: at every
/// pixel both frames hold the same colour and depth, those of the nearest
/// fragment that was offered to the pixel.
pub proof fn law_two_triangles_in_either_order(
    frame: Frame,
    uniforms: Uniforms,
    light: Light,
    a: Seq<Vertex>,
    b: Seq<Vertex>,
    shade: spec_fn(Fragment) -> Vector3,
)
    requires
        frame.wf(),
        a.len() == 3,
        b.len() == 3,
        never_tie(drawn_fragments(a, uniforms, light), drawn_fragments(b, uniforms, light)),
    ensures
        written(
            frame,
            drawn_fragments(a + b, uniforms, light),
            drawn_fragments(a + b, uniforms, light).map_values(shade),
        ) == written(
            frame,
            drawn_fragments(b + a, uniforms, light),
            drawn_fragments(b + a, uniforms, light).map_values(shade),
        ),
{
    let of_a = drawn_fragments(a, uniforms, light);
    let of_b = drawn_fragments(b, uniforms, light);
    let joined = drawn_fragments(a + b, uniforms, light);
    let colors = joined.map_values(shade);
    lemma_drawn_concat(a, b, uniforms, light);
    lemma_drawn_triangle(a, uniforms, light);
    lemma_drawn_triangle(b, uniforms, light);
    let (a1, a2, a3) = (
        spec_vertex_shader(a[0], uniforms),
        spec_vertex_shader(a[1], uniforms),
        spec_vertex_shader(a[2], uniforms),
    );
    let (b1, b2, b3) = (
        spec_vertex_shader(b[0], uniforms),
        spec_vertex_shader(b[1], uniforms),
        spec_vertex_shader(b[2], uniforms),
    );
    assert forall|i: int, j: int|
        0 <= i < joined.len() && 0 <= j < joined.len() && pixel_coordinate(joined[i].position.x)
            == pixel_coordinate(joined[j].position.x) && pixel_coordinate(joined[i].position.y)
            == pixel_coordinate(joined[j].position.y) && joined[i].depth
            == joined[j].depth implies #[trigger] colors[i] == #[trigger] colors[j] by {
        let n = of_a.len() as int;
        if i < n && j < n {
            lemma_one_fragment_per_pixel(a1, a2, a3, light, i, j);
        } else if i >= n && j >= n {
            lemma_one_fragment_per_pixel(b1, b2, b3, light, i - n, j - n);
        } else if i < n {
            assert(same_pixel(of_a[i], of_b[j - n]));
        } else {
            assert(same_pixel(of_a[j], of_b[i - n]));
        }
    }
    assert(ties_agree(joined, colors));
    law_draw_order(frame, uniforms, light, a, b, shade);
}

/// Where a fragment of one triangle and a farther fragment of another are
/// offered to a pixel that held something farther than both, the pixel ends
/// up with the colour and depth of the nearer fragment, in whichever order
/// the two triangles come.
proof fn lemma_nearer_of_two(
    frame: Frame,
    x1: Vertex,
    x2: Vertex,
    x3: Vertex,
    y1: Vertex,
    y2: Vertex,
    y3: Vertex,
    light: Light,
    shade: spec_fn(Fragment) -> Vector3,
    i: int,
    j: int,
    near_in_first: bool,
)
    requires
        frame.wf(),
        0 <= i < triangle_fragments(x1, x2, x3, light).len(),
        0 <= j < triangle_fragments(y1, y2, y3, light).len(),
        same_pixel(triangle_fragments(x1, x2, x3, light)[i], triangle_fragments(y1, y2, y3, light)[j]),
        frame.in_bounds(
            pixel_coordinate(triangle_fragments(x1, x2, x3, light)[i].position.x),
            pixel_coordinate(triangle_fragments(x1, x2, x3, light)[i].position.y),
        ),
        near_in_first ==> triangle_fragments(x1, x2, x3, light)[i].depth < triangle_fragments(
            y1,
            y2,
            y3,
            light,
        )[j].depth && frame.pixel(
            pixel_coordinate(triangle_fragments(x1, x2, x3, light)[i].position.x),
            pixel_coordinate(triangle_fragments(x1, x2, x3, light)[i].position.y),
        ).depth.is_behind(triangle_fragments(x1, x2, x3, light)[i].depth),
        !near_in_first ==> triangle_fragments(y1, y2, y3, light)[j].depth < triangle_fragments(
            x1,
            x2,
            x3,
            light,
        )[i].depth && frame.pixel(
            pixel_coordinate(triangle_fragments(x1, x2, x3, light)[i].position.x),
            pixel_coordinate(triangle_fragments(x1, x2, x3, light)[i].position.y),
        ).depth.is_behind(triangle_fragments(y1, y2, y3, light)[j].depth),
    ensures
        ({
            let first = triangle_fragments(x1, x2, x3, light);
            let second = triangle_fragments(y1, y2, y3, light);
            let near = if near_in_first {
                first[i]
            } else {
                second[j]
            };
            written(frame, first + second, (first + second).map_values(shade)).pixel(
                pixel_coordinate(first[i].position.x),
                pixel_coordinate(first[i].position.y),
            ) == (Pixel { color: shade(near), depth: Depth::Finite(near.depth) })
        }),
{
    let first = triangle_fragments(x1, x2, x3, light);
    let second = triangle_fragments(y1, y2, y3, light);
    let joined = first + second;
    let colors = joined.map_values(shade);
    let n = first.len() as int;
    let (px, py) = (pixel_coordinate(first[i].position.x), pixel_coordinate(first[i].position.y));
    let after = written(frame, joined, colors).pixel(px, py);
    law_pixel_holds_the_nearest(frame, joined, colors, px, py);
    assert(joined[i] == first[i] && lands_on(joined[i], px, py));
    assert(joined[n + j] == second[j] && lands_on(joined[n + j], px, py));
    if after == frame.pixel(px, py) {
        assert(false);
    } else {
        let k = choose|k: int|
            0 <= k < joined.len() && lands_on(#[trigger] joined[k], px, py) && frame.pixel(
                px,
                py,
            ).depth.is_behind(joined[k].depth) && after == (Pixel {
                color: colors[k],
                depth: Depth::Finite(joined[k].depth),
            });
        if k < n {
            assert(same_pixel(first[k], first[i]));
            lemma_one_fragment_per_pixel(x1, x2, x3, light, k, i);
        } else {
            assert(joined[k] == second[k - n]);
            assert(same_pixel(second[k - n], second[j]));
            lemma_one_fragment_per_pixel(y1, y2, y3, light, k - n, j);
        }
    }
}

/// The nearer of two overlapping triangles shows. Let a fragment of the
/// triangle `a` and a farther fragment of the triangle `b` be offered to a
/// pixel of the frame that held something farther than both. Then the pixel
/// ends up with the colour and depth of the fragment of `a`, whether `a` is
/// drawn before `b` or after it.
pub proof fn law_nearer_triangle_shows(
    frame: Frame,
    uniforms: Uniforms,
    light: Light,
    a: Seq<Vertex>,
    b: Seq<Vertex>,
    shade: spec_fn(Fragment) -> Vector3,
    i: int,
    j: int,
)
    requires
        frame.wf(),
        a.len() == 3,
        b.len() == 3,
        0 <= i < drawn_fragments(a, uniforms, light).len(),
        0 <= j < drawn_fragments(b, uniforms, light).len(),
        same_pixel(drawn_fragments(a, uniforms, light)[i], drawn_fragments(b, uniforms, light)[j]),
        drawn_fragments(a, uniforms, light)[i].depth < drawn_fragments(b, uniforms, light)[j].depth,
        frame.in_bounds(
            pixel_coordinate(drawn_fragments(a, uniforms, light)[i].position.x),
            pixel_coordinate(drawn_fragments(a, uniforms, light)[i].position.y),
        ),
        frame.pixel(
            pixel_coordinate(drawn_fragments(a, uniforms, light)[i].position.x),
            pixel_coordinate(drawn_fragments(a, uniforms, light)[i].position.y),
        ).depth.is_behind(drawn_fragments(a, uniforms, light)[i].depth),
    ensures
        ({
            let near = drawn_fragments(a, uniforms, light)[i];
            let shown = Pixel { color: shade(near), depth: Depth::Finite(near.depth) };
            let (x, y) = (pixel_coordinate(near.position.x), pixel_coordinate(near.position.y));
            &&& written(
                frame,
                drawn_fragments(a + b, uniforms, light),
                drawn_fragments(a + b, uniforms, light).map_values(shade),
            ).pixel(x, y) == shown
            &&& written(
                frame,
                drawn_fragments(b + a, uniforms, light),
                drawn_fragments(b + a, uniforms, light).map_values(shade),
            ).pixel(x, y) == shown
        }),
{
    lemma_drawn_concat(a, b, uniforms, light);
    lemma_drawn_concat(b, a, uniforms, light);
    lemma_drawn_triangle(a, uniforms, light);
    lemma_drawn_triangle(b, uniforms, light);
    let (a1, a2, a3) = (
        spec_vertex_shader(a[0], uniforms),
        spec_vertex_shader(a[1], uniforms),
        spec_vertex_shader(a[2], uniforms),
    );
    let (b1, b2, b3) = (
        spec_vertex_shader(b[0], uniforms),
        spec_vertex_shader(b[1], uniforms),
        spec_vertex_shader(b[2], uniforms),
    );
    lemma_nearer_of_two(frame, a1, a2, a3, b1, b2, b3, light, shade, i, j, true);
    lemma_nearer_of_two(frame, b1, b2, b3, a1, a2, a3, light, shade, j, i, false);
}

} // verus!
