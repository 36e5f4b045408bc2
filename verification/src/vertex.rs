//! The vertex record that travels through the pipeline.

use crate::fixed::ONE;
use crate::vector::Vector2;
use crate::vector::Vector3;
use vstd::prelude::*;

verus! {

/// One mesh vertex.
///
/// `position`, `normal`, `tex_coords` and `color` come from the mesh and are
/// never changed by the pipeline. The vertex stage fills
/// `transformed_position` with the screen-space position (`x` and `y` in
/// pixels, `z` the depth) and `transformed_normal` with the normal it lights
/// with.
#[derive(Clone, Copy, Debug, PartialEq, Eq, Structural)]
pub struct Vertex {
    pub position: Vector3,
    pub normal: Vector3,
    pub tex_coords: Vector2,
    pub color: Vector3,
    pub transformed_position: Vector3,
    pub transformed_normal: Vector3,
}

impl Vertex {
    /// A white, not yet transformed vertex: its transformed attributes start
    /// out equal to the untransformed ones.
    pub open spec fn spec_new(position: Vector3, normal: Vector3, tex_coords: Vector2) -> Vertex {
        Vertex {
            position,
            normal,
            tex_coords,
            color: Vector3 { x: ONE, y: ONE, z: ONE },
            transformed_position: position,
            transformed_normal: normal,
        }
    }

    /// Makes a mesh vertex from its position, normal and texture coordinates.
    #[verifier::when_used_as_spec(spec_new)]
    pub fn new(position: Vector3, normal: Vector3, tex_coords: Vector2) -> (v: Vertex)
        ensures
            v == Vertex::spec_new(position, normal, tex_coords),
    {
        Vertex {
            position,
            normal,
            tex_coords,
            color: Vector3 { x: ONE, y: ONE, z: ONE },
            transformed_position: position,
            transformed_normal: normal,
        }
    }
}

} // verus!
