//! A wireframe rasterizer: screen points, the digital line between two of
//! them, and the outline of a triangle, written into a flat pixel buffer.

pub mod canvas;
pub mod engine;
pub mod line;
