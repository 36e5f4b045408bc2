//! A software rasterization pipeline over 16.16 fixed-point numbers.
//!
//! Vertices pass through a matrix transform chain into screen space,
//! triangles are filled pixel by pixel with a top-left edge rule, and the
//! resulting fragments are written into a frame buffer that keeps, for every
//! pixel, the nearest fragment seen since the last clear.
//!
//! Every number the pipeline computes with is an integer: a real value `v`
//! is held as `floor(v * 65536)` in an `i32`. Coverage of a pixel by a
//! triangle is therefore decided exactly, never by rounding.
//!
//! - [`fixed`] and [`binary32`]: the arithmetic, and the way in from
//!   single-precision numbers.
//! - [`vector`], [`vertex`], [`fragment`], [`light`]: the data of the
//!   pipeline.
//! - [`shaders`] and [`matrix`]: the vertex stage and the viewport
//!   transform.
//! - [`geometry`] and [`triangle`]: the rasterizer and the laws of coverage.
//! - [`framebuffer`]: the colour and depth planes and the depth test.
//! - [`render`]: the draw call, and the laws of the image it leaves.
//! - [`obj`]: meshes, read from model files or laid out as grids.

pub mod binary32;
pub mod fixed;
pub mod fragment;
pub mod framebuffer;
pub mod geometry;
pub mod light;
pub mod matrix;
pub mod obj;
pub mod render;
pub mod shaders;
pub mod triangle;
pub mod vector;
pub mod vertex;
