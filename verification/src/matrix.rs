//! The viewport transform.
//!
//! Of the transforms of a draw call, the viewport transform alone is built
//! without trigonometry: it scales the normalized square from -1 to 1 to
//! the rectangle of the screen and spreads the normalized depth over the
//! depth range.

use crate::fixed::div_floor;
use crate::fixed::floor_div;
use crate::fixed::saturate;
use crate::fixed::saturate_i128;
use crate::fixed::ONE;
use crate::shaders::is_viewport;
use crate::shaders::law_center_maps_to_center;
use crate::shaders::spec_vertex_shader;
use crate::shaders::Uniforms;
use crate::vector::Matrix;
use crate::vector::Vector3;
use crate::vertex::Vertex;
use vstd::prelude::*;

verus! {

/// The factor by which the viewport transform scales the normalized depth:
/// 255.
pub const DEPTH_SCALE: i32 = 16711680;

/// The viewport transform of the rectangle with the corner `(x, y)` and the
/// given width and height, all of them fixed-point numbers of pixels. The
/// middle of the normalized square goes to the middle of the rectangle.
pub open spec fn spec_create_viewport_matrix(x: i32, y: i32, width: i32, height: i32) -> Matrix {
    Matrix {
        m0: floor_div(width as int, 2) as i32,
        m4: 0,
        m8: 0,
        m12: saturate(x + floor_div(width as int, 2)),
        m1: 0,
        m5: floor_div(height as int, 2) as i32,
        m9: 0,
        m13: saturate(y + floor_div(height as int, 2)),
        m2: 0,
        m6: 0,
        m10: DEPTH_SCALE,
        m14: 0,
        m3: 0,
        m7: 0,
        m11: 0,
        m15: ONE,
    }
}

/// Builds the viewport transform of a rectangle of the screen.
#[verifier::when_used_as_spec(spec_create_viewport_matrix)]
pub fn create_viewport_matrix(x: i32, y: i32, width: i32, height: i32) -> (matrix: Matrix)
    ensures
        matrix == spec_create_viewport_matrix(x, y, width, height),
{
    let half_width = div_floor(width as i128, 2) as i32;
    let half_height = div_floor(height as i128, 2) as i32;
    Matrix {
        m0: half_width,
        m4: 0,
        m8: 0,
        m12: saturate_i128(x as i128 + half_width as i128),
        m1: 0,
        m5: half_height,
        m9: 0,
        m13: saturate_i128(y as i128 + half_height as i128),
        m2: 0,
        m6: 0,
        m10: DEPTH_SCALE,
        m14: 0,
        m3: 0,
        m7: 0,
        m11: 0,
        m15: ONE,
    }
}

/// The centre of the projection maps to the centre pixel of the viewport.
/// With identity model and view transforms and a centred projection
/// without perspective, the vertex at the origin lands in the middle of the
/// rectangle that the viewport transform was built for, at depth zero.
pub proof fn law_center_maps_to_center_pixel(
    vertex: Vertex,
    projection: Matrix,
    x: i32,
    y: i32,
    width: i32,
    height: i32,
    time: i32,
)
    requires
        vertex.position == (Vector3 { x: 0, y: 0, z: 0 }),
        crate::shaders::is_centered(projection),
    ensures
        spec_vertex_shader(
            vertex,
            Uniforms {
                model_matrix: Matrix::spec_identity(),
                view_matrix: Matrix::spec_identity(),
                projection_matrix: projection,
                viewport_matrix: spec_create_viewport_matrix(x, y, width, height),
                time,
            },
        ).transformed_position == (Vector3 {
            x: saturate(x + floor_div(width as int, 2)),
            y: saturate(y + floor_div(height as int, 2)),
            z: 0,
        }),
{
    let viewport = spec_create_viewport_matrix(x, y, width, height);
    assert(is_viewport(viewport));
    law_center_maps_to_center(vertex, projection, viewport, time);
}

} // verus!
