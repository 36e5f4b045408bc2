//! The fragment: one candidate pixel write.

use crate::vector::Vector2;
use crate::vector::Vector3;
use vstd::prelude::*;

verus! {

/// What the rasterizer produces for one covered pixel.
///
/// `position` holds the pixel's column and row as fixed-point numbers,
/// `depth` the interpolated screen-space depth, `color` the interpolated and
/// lit colour, `world_position` the interpolated untransformed position.
#[derive(Clone, Copy, Debug, PartialEq, Eq, Structural)]
pub struct Fragment {
    pub position: Vector2,
    pub color: Vector3,
    pub depth: i32,
    pub world_position: Vector3,
}

impl Fragment {
    /// A fragment at the origin of the world.
    pub fn new(x: i32, y: i32, color: Vector3, depth: i32) -> (f: Fragment)
        ensures
            f == (Fragment {
                position: Vector2 { x, y },
                color,
                depth,
                world_position: Vector3 { x: 0, y: 0, z: 0 },
            }),
    {
        Fragment {
            position: Vector2 { x, y },
            color,
            depth,
            world_position: Vector3 { x: 0, y: 0, z: 0 },
        }
    }

    /// A fragment that remembers where on the surface it lies.
    pub fn new_with_world_pos(x: i32, y: i32, color: Vector3, depth: i32, world_pos: Vector3) -> (f:
        Fragment)
        ensures
            f == (Fragment {
                position: Vector2 { x, y },
                color,
                depth,
                world_position: world_pos,
            }),
    {
        Fragment { position: Vector2 { x, y }, color, depth, world_position: world_pos }
    }
}

} // verus!
