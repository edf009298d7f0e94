//! A small 2D pixel-drawing engine core: scan-conversion primitives (line,
//! circle, rectangle, text) that each produce the sequence of pixels they
//! cover, and a flat RGBA pixel buffer that consumes such sequences.

pub mod arithmetic;
pub mod buffer;
pub mod circle;
pub mod color;
pub mod draw;
pub mod line;
pub mod pixel;
pub mod rectangle;
pub mod text;
