//! The vertex stage and the tags of the fragment stage.
//!
//! The vertex stage carries a model-space position through the model, view
//! and projection transforms into clip space, divides by `w`, and maps the
//! result to the screen with the viewport transform. Every product is
//! rounded down and clamped to the range of the fixed-point numbers.

use crate::fixed::div_floor;
use crate::fixed::fixed_div;
use crate::fixed::fixed_mul;
use crate::fixed::floor_div;
use crate::fixed::lemma_mul_bounded;
use crate::fixed::saturate;
use crate::fixed::saturate_i128;
use crate::fixed::ONE;
use crate::fragment::Fragment;
use crate::vector::Matrix;
use crate::vector::Vector3;
use crate::vector::Vector4;
use crate::vertex::Vertex;
use vstd::prelude::*;

verus! {

/// What stays the same for every vertex and fragment of one draw call: the
/// four transforms and the time.
#[derive(Clone, Copy, Debug, PartialEq, Eq, Structural)]
pub struct Uniforms {
    pub model_matrix: Matrix,
    pub view_matrix: Matrix,
    pub projection_matrix: Matrix,
    pub viewport_matrix: Matrix,
    pub time: i32,
}

/// The kind of surface a mesh is shaded as. It picks the fragment program
/// of a draw call.
#[derive(Clone, Copy, Debug, PartialEq, Eq, Structural)]
pub enum PlanetType {
    Rocky,
    GasGiant,
    SciFi,
    Ice,
    Volcanic,
    Ring,
    Moon,
    Sun,
    Ship,
}

/// One row of a matrix applied to a vector: the fixed-point sum of the four
/// products, rounded down once and clamped.
pub open spec fn row_times_vector(a: i32, b: i32, c: i32, d: i32, v: Vector4) -> i32 {
    saturate(floor_div(a * v.x + b * v.y + c * v.z + d * v.w, ONE as int))
}

/// The matrix applied to the vector.
pub open spec fn spec_multiply_matrix_vector4(matrix: Matrix, vector: Vector4) -> Vector4 {
    Vector4 {
        x: row_times_vector(matrix.m0, matrix.m4, matrix.m8, matrix.m12, vector),
        y: row_times_vector(matrix.m1, matrix.m5, matrix.m9, matrix.m13, vector),
        z: row_times_vector(matrix.m2, matrix.m6, matrix.m10, matrix.m14, vector),
        w: row_times_vector(matrix.m3, matrix.m7, matrix.m11, matrix.m15, vector),
    }
}

/// The position with a fourth coordinate of one.
pub open spec fn lift(position: Vector3) -> Vector4 {
    Vector4 { x: position.x, y: position.y, z: position.z, w: ONE }
}

/// The perspective divide: the first three clip coordinates divided by the
/// fourth. Where the fourth is zero they pass through unchanged.
pub open spec fn spec_perspective_divide(clip: Vector4) -> Vector3 {
    if clip.w != 0 {
        Vector3 {
            x: fixed_div(clip.x, clip.w),
            y: fixed_div(clip.y, clip.w),
            z: fixed_div(clip.z, clip.w),
        }
    } else {
        Vector3 { x: clip.x, y: clip.y, z: clip.z }
    }
}

/// The clip-space position of a model-space position.
pub open spec fn clip_position(position: Vector3, uniforms: Uniforms) -> Vector4 {
    let world = spec_multiply_matrix_vector4(uniforms.model_matrix, lift(position));
    let view = spec_multiply_matrix_vector4(uniforms.view_matrix, world);
    spec_multiply_matrix_vector4(uniforms.projection_matrix, view)
}

/// The normalized device coordinates of a model-space position.
pub open spec fn ndc_position(position: Vector3, uniforms: Uniforms) -> Vector3 {
    spec_perspective_divide(clip_position(position, uniforms))
}

/// The screen-space position of a model-space position.
pub open spec fn screen_position(position: Vector3, uniforms: Uniforms) -> Vector3 {
    let screen = spec_multiply_matrix_vector4(
        uniforms.viewport_matrix,
        lift(ndc_position(position, uniforms)),
    );
    Vector3 { x: screen.x, y: screen.y, z: screen.z }
}

/// The vertex as the vertex stage hands it on when `position` is what it
/// transforms: the mesh attributes are kept, the transformed position is the
/// screen-space position, and the transformed normal is the normal itself.
pub open spec fn spec_vertex_shader_at(vertex: Vertex, position: Vector3, uniforms: Uniforms)
    -> Vertex {
    Vertex {
        position: vertex.position,
        normal: vertex.normal,
        tex_coords: vertex.tex_coords,
        color: vertex.color,
        transformed_position: screen_position(position, uniforms),
        transformed_normal: vertex.normal,
    }
}

/// The vertex as the vertex stage hands it on.
pub open spec fn spec_vertex_shader(vertex: Vertex, uniforms: Uniforms) -> Vertex {
    spec_vertex_shader_at(vertex, vertex.position, uniforms)
}

fn row(a: i32, b: i32, c: i32, d: i32, v: &Vector4) -> (r: i32)
    ensures
        r == row_times_vector(a, b, c, d, *v),
{
    proof {
        lemma_mul_bounded(a as int, v.x as int, 0x8000_0000, 0x8000_0000);
        lemma_mul_bounded(b as int, v.y as int, 0x8000_0000, 0x8000_0000);
        lemma_mul_bounded(c as int, v.z as int, 0x8000_0000, 0x8000_0000);
        lemma_mul_bounded(d as int, v.w as int, 0x8000_0000, 0x8000_0000);
    }
    let sum: i128 = (a as i128) * (v.x as i128) + (b as i128) * (v.y as i128) + (c as i128) * (
    v.z as i128) + (d as i128) * (v.w as i128);
    saturate_i128(div_floor(sum, 65536))
}

/// Applies a matrix to a vector in homogeneous coordinates.
#[verifier::when_used_as_spec(spec_multiply_matrix_vector4_ref)]
pub fn multiply_matrix_vector4(matrix: &Matrix, vector: &Vector4) -> (product: Vector4)
    ensures
        product == spec_multiply_matrix_vector4(*matrix, *vector),
{
    Vector4 {
        x: row(matrix.m0, matrix.m4, matrix.m8, matrix.m12, vector),
        y: row(matrix.m1, matrix.m5, matrix.m9, matrix.m13, vector),
        z: row(matrix.m2, matrix.m6, matrix.m10, matrix.m14, vector),
        w: row(matrix.m3, matrix.m7, matrix.m11, matrix.m15, vector),
    }
}

/// The matrix applied to the vector, both taken by reference.
pub open spec fn spec_multiply_matrix_vector4_ref(matrix: &Matrix, vector: &Vector4) -> Vector4 {
    spec_multiply_matrix_vector4(*matrix, *vector)
}

/// Divides clip coordinates by `w`. A `w` of zero is no error: the
/// coordinates then pass through as they are.
pub fn perspective_divide(clip: &Vector4) -> (ndc: Vector3)
    ensures
        ndc == spec_perspective_divide(*clip),
        clip.w != 0 ==> ndc.x == fixed_div(clip.x, clip.w) && ndc.y == fixed_div(clip.y, clip.w)
            && ndc.z == fixed_div(clip.z, clip.w),
        clip.w == 0 ==> ndc.x == clip.x && ndc.y == clip.y && ndc.z == clip.z,
{
    if clip.w != 0 {
        Vector3 {
            x: fixed_div(clip.x, clip.w),
            y: fixed_div(clip.y, clip.w),
            z: fixed_div(clip.z, clip.w),
        }
    } else {
        Vector3 { x: clip.x, y: clip.y, z: clip.z }
    }
}

/// Runs the transform chain on `position` in place of the position of the
/// vertex, which the result keeps. A vertex program that displaces its
/// vertices before projecting them ends with this.
pub fn vertex_shader_at(vertex: &Vertex, position: Vector3, uniforms: &Uniforms) -> (transformed:
    Vertex)
    ensures
        transformed == spec_vertex_shader_at(*vertex, position, *uniforms),
{
    let position_vec4 = Vector4 { x: position.x, y: position.y, z: position.z, w: ONE };
    let world_position = multiply_matrix_vector4(&uniforms.model_matrix, &position_vec4);
    let view_position = multiply_matrix_vector4(&uniforms.view_matrix, &world_position);
    let clip_position = multiply_matrix_vector4(&uniforms.projection_matrix, &view_position);
    let ndc = perspective_divide(&clip_position);
    let ndc_vec4 = Vector4 { x: ndc.x, y: ndc.y, z: ndc.z, w: ONE };
    let screen_position = multiply_matrix_vector4(&uniforms.viewport_matrix, &ndc_vec4);
    Vertex {
        position: vertex.position,
        normal: vertex.normal,
        tex_coords: vertex.tex_coords,
        color: vertex.color,
        transformed_position: Vector3 {
            x: screen_position.x,
            y: screen_position.y,
            z: screen_position.z,
        },
        transformed_normal: vertex.normal,
    }
}

/// The vertex stage: maps one vertex from model space to the screen.
#[verifier::when_used_as_spec(spec_vertex_shader_ref)]
pub fn vertex_shader(vertex: &Vertex, uniforms: &Uniforms) -> (transformed: Vertex)
    ensures
        transformed == spec_vertex_shader(*vertex, *uniforms),
{
    vertex_shader_at(vertex, vertex.position, uniforms)
}

/// The vertex stage as a function of its borrowed arguments.
pub open spec fn spec_vertex_shader_ref(vertex: &Vertex, uniforms: &Uniforms) -> Vertex {
    spec_vertex_shader(*vertex, *uniforms)
}

/// The plain fragment program: the fragment keeps the colour it was lit
/// with.
pub fn fragment_shader(fragment: &Fragment, _uniforms: &Uniforms) -> (color: Vector3)
    ensures
        color == fragment.color,
{
    fragment.color
}

/// The red and the green of a hull in full light: 0.7.
pub const HULL_GRAY: i32 = 45875;

/// The blue of a hull in full light: 0.75.
pub const HULL_GRAY_BLUE: i32 = 49152;

/// The least brightness a hull is drawn with: 0.3.
pub const HULL_MIN_BRIGHTNESS: i32 = 19660;

/// The factor by which a hull is brightened: 1.2.
pub const HULL_BOOST: i32 = 78643;

/// The brightness of a colour: the largest of its channels.
pub open spec fn brightness(color: Vector3) -> i32 {
    if color.x >= color.y && color.x >= color.z {
        color.x
    } else if color.y >= color.z {
        color.y
    } else {
        color.z
    }
}

/// One channel of the hull colour: the grey scaled by the brightness and
/// the boost, and no more than one.
pub open spec fn hull_channel(gray: i32, light: i32) -> i32 {
    if fixed_mul(fixed_mul(gray, light), HULL_BOOST) > ONE {
        ONE
    } else {
        fixed_mul(fixed_mul(gray, light), HULL_BOOST)
    }
}

/// The colour of a hull fragment: a flat grey, as bright as the brightest
/// channel of the lit colour but never darker than the least brightness.
pub open spec fn spec_shader_ship(fragment: Fragment) -> Vector3 {
    let light = if brightness(fragment.color) < HULL_MIN_BRIGHTNESS {
        HULL_MIN_BRIGHTNESS
    } else {
        brightness(fragment.color)
    };
    Vector3 {
        x: hull_channel(HULL_GRAY, light),
        y: hull_channel(HULL_GRAY, light),
        z: hull_channel(HULL_GRAY_BLUE, light),
    }
}

fn boosted(gray: i32, light: i32) -> (channel: i32)
    ensures
        channel == hull_channel(gray, light),
{
    let value = fixed_mul(fixed_mul(gray, light), HULL_BOOST);
    if value > ONE {
        ONE
    } else {
        value
    }
}

/// The fragment program of hulls. It does not depend on the time.
pub fn shader_ship(fragment: &Fragment, _time: i32) -> (color: Vector3)
    ensures
        color == spec_shader_ship(*fragment),
{
    let base = fragment.color;
    let brightest = if base.x >= base.y && base.x >= base.z {
        base.x
    } else if base.y >= base.z {
        base.y
    } else {
        base.z
    };
    let light = if brightest < HULL_MIN_BRIGHTNESS {
        HULL_MIN_BRIGHTNESS
    } else {
        brightest
    };
    Vector3 {
        x: boosted(HULL_GRAY, light),
        y: boosted(HULL_GRAY, light),
        z: boosted(HULL_GRAY_BLUE, light),
    }
}

/// The perspective divide is exact. Wherever the clip-space `w` of a vertex
/// is not zero, each of its normalized device coordinates is the fixed-point
/// quotient of the clip coordinate by `w`; the screen position is the
/// viewport transform of just these coordinates.
pub proof fn law_perspective_divide(vertex: Vertex, uniforms: Uniforms)
    ensures
        ({
            let clip = clip_position(vertex.position, uniforms);
            let ndc = ndc_position(vertex.position, uniforms);
            let screen = spec_multiply_matrix_vector4(uniforms.viewport_matrix, lift(ndc));
            &&& clip.w != 0 ==> ndc.x == saturate(floor_div(clip.x * ONE, clip.w as int)) && ndc.y
                == saturate(floor_div(clip.y * ONE, clip.w as int)) && ndc.z == saturate(
                floor_div(clip.z * ONE, clip.w as int),
            )
            &&& clip.w == 0 ==> ndc.x == clip.x && ndc.y == clip.y && ndc.z == clip.z
            &&& spec_vertex_shader(vertex, uniforms).transformed_position == (Vector3 {
                x: screen.x,
                y: screen.y,
                z: screen.z,
            })
        }),
{
}

/// The identity matrix leaves every vector as it is.
pub proof fn law_identity_transform(vector: Vector4)
    ensures
        spec_multiply_matrix_vector4(Matrix::spec_identity(), vector) == vector,
{
    let (x, y, z, w) = (vector.x as int, vector.y as int, vector.z as int, vector.w as int);
    assert(floor_div(65536 * x + 0 * y + 0 * z + 0 * w, 65536) == x);
    assert(floor_div(0 * x + 65536 * y + 0 * z + 0 * w, 65536) == y);
    assert(floor_div(0 * x + 0 * y + 65536 * z + 0 * w, 65536) == z);
    assert(floor_div(0 * x + 0 * y + 0 * z + 65536 * w, 65536) == w);
}

/// Whether the matrix maps the origin to the origin and leaves `w` alone: a
/// scaling or a rotation about the centre, without translation and without
/// perspective.
pub open spec fn is_centered(matrix: Matrix) -> bool {
    &&& matrix.m12 == 0
    &&& matrix.m13 == 0
    &&& matrix.m14 == 0
    &&& matrix.m3 == 0
    &&& matrix.m7 == 0
    &&& matrix.m11 == 0
    &&& matrix.m15 == ONE
}

/// Whether the matrix is a viewport transform: it leaves `w` alone.
pub open spec fn is_viewport(matrix: Matrix) -> bool {
    &&& matrix.m3 == 0
    &&& matrix.m7 == 0
    &&& matrix.m11 == 0
    &&& matrix.m15 == ONE
}

/// The centre of the projection maps to the centre of the viewport. With
/// identity model and view transforms and a centred projection without
/// perspective, the vertex at the origin lands where the viewport transform
/// puts the middle of the normalized square: at its translation.
pub proof fn law_center_maps_to_center(vertex: Vertex, projection: Matrix, viewport: Matrix, time: i32)
    requires
        vertex.position == (Vector3 { x: 0, y: 0, z: 0 }),
        is_centered(projection),
        is_viewport(viewport),
    ensures
        spec_vertex_shader(
            vertex,
            Uniforms {
                model_matrix: Matrix::spec_identity(),
                view_matrix: Matrix::spec_identity(),
                projection_matrix: projection,
                viewport_matrix: viewport,
                time,
            },
        ).transformed_position == (Vector3 { x: viewport.m12, y: viewport.m13, z: viewport.m14 }),
{
    let origin = Vector4 { x: 0, y: 0, z: 0, w: ONE };
    law_identity_transform(origin);
    lemma_translation_column(projection);
    lemma_translation_column(viewport);
    assert(fixed_div(0, ONE) == 0);
    assert(fixed_div(ONE, ONE) == ONE);
}

/// Applied to the origin, a matrix gives its last column.
proof fn lemma_translation_column(matrix: Matrix)
    ensures
        spec_multiply_matrix_vector4(matrix, Vector4 { x: 0, y: 0, z: 0, w: ONE }) == (Vector4 {
            x: matrix.m12,
            y: matrix.m13,
            z: matrix.m14,
            w: matrix.m15,
        }),
{
    lemma_unit_row(matrix.m0, matrix.m4, matrix.m8, matrix.m12);
    lemma_unit_row(matrix.m1, matrix.m5, matrix.m9, matrix.m13);
    lemma_unit_row(matrix.m2, matrix.m6, matrix.m10, matrix.m14);
    lemma_unit_row(matrix.m3, matrix.m7, matrix.m11, matrix.m15);
}

proof fn lemma_unit_row(a: i32, b: i32, c: i32, d: i32)
    ensures
        row_times_vector(a, b, c, d, Vector4 { x: 0, y: 0, z: 0, w: ONE }) == d,
{
    assert(a * 0 + b * 0 + c * 0 + d * 65536 == d * 65536) by (nonlinear_arith);
    assert(floor_div(d * 65536, 65536) == d);
}

} // verus!
