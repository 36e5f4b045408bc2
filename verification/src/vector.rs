//! Plain fixed-point vectors and the 4x4 matrix.

use crate::fixed::ONE;
use vstd::prelude::*;

verus! {

/// A pair of fixed-point numbers.
#[derive(Clone, Copy, Debug, PartialEq, Eq, Structural)]
pub struct Vector2 {
    pub x: i32,
    pub y: i32,
}

/// A triple of fixed-point numbers: a position, a direction or an RGB colour.
#[derive(Clone, Copy, Debug, PartialEq, Eq, Structural)]
pub struct Vector3 {
    pub x: i32,
    pub y: i32,
    pub z: i32,
}

/// A position in homogeneous coordinates.
#[derive(Clone, Copy, Debug, PartialEq, Eq, Structural)]
pub struct Vector4 {
    pub x: i32,
    pub y: i32,
    pub z: i32,
    pub w: i32,
}

/// A 4x4 matrix of fixed-point numbers, stored by columns: the first row is
/// `m0 m4 m8 m12`, the first column `m0 m1 m2 m3`.
#[derive(Clone, Copy, Debug, PartialEq, Eq, Structural)]
pub struct Matrix {
    pub m0: i32,
    pub m4: i32,
    pub m8: i32,
    pub m12: i32,
    pub m1: i32,
    pub m5: i32,
    pub m9: i32,
    pub m13: i32,
    pub m2: i32,
    pub m6: i32,
    pub m10: i32,
    pub m14: i32,
    pub m3: i32,
    pub m7: i32,
    pub m11: i32,
    pub m15: i32,
}

impl Vector2 {
    pub fn new(x: i32, y: i32) -> (v: Vector2)
        ensures
            v == (Vector2 { x, y }),
    {
        Vector2 { x, y }
    }

    pub fn zero() -> (v: Vector2)
        ensures
            v == (Vector2 { x: 0, y: 0 }),
    {
        Vector2 { x: 0, y: 0 }
    }
}

impl Vector3 {
    pub fn new(x: i32, y: i32, z: i32) -> (v: Vector3)
        ensures
            v == (Vector3 { x, y, z }),
    {
        Vector3 { x, y, z }
    }

    pub fn zero() -> (v: Vector3)
        ensures
            v == (Vector3 { x: 0, y: 0, z: 0 }),
    {
        Vector3 { x: 0, y: 0, z: 0 }
    }
}

impl Vector4 {
    pub fn new(x: i32, y: i32, z: i32, w: i32) -> (v: Vector4)
        ensures
            v == (Vector4 { x, y, z, w }),
    {
        Vector4 { x, y, z, w }
    }
}

impl Matrix {
    /// The matrix with ones on the diagonal and zeros elsewhere.
    pub open spec fn spec_identity() -> Matrix {
        Matrix {
            m0: ONE,
            m4: 0,
            m8: 0,
            m12: 0,
            m1: 0,
            m5: ONE,
            m9: 0,
            m13: 0,
            m2: 0,
            m6: 0,
            m10: ONE,
            m14: 0,
            m3: 0,
            m7: 0,
            m11: 0,
            m15: ONE,
        }
    }

    /// The identity transform.
    #[verifier::when_used_as_spec(spec_identity)]
    pub fn identity() -> (m: Matrix)
        ensures
            m == Matrix::spec_identity(),
    {
        Matrix {
            m0: ONE,
            m4: 0,
            m8: 0,
            m12: 0,
            m1: 0,
            m5: ONE,
            m9: 0,
            m13: 0,
            m2: 0,
            m6: 0,
            m10: ONE,
            m14: 0,
            m3: 0,
            m7: 0,
            m11: 0,
            m15: ONE,
        }
    }
}

} // verus!
