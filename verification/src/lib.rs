//! An H-tree fractal library: integer line geometry, a frontier-based
//! growth engine over sets of line segments, and a rasterizer that turns
//! a fractal state into a square one-byte-per-pixel canvas.

pub mod arith;
pub mod geometry;
pub mod fractals;
