//! Composite "glitch art" from a batch of photographs: decoding raw detector
//! output into boxes, greedy non-maximum suppression, snippet compositing and
//! the brightest-wins canvas blend.

pub mod raster;
pub mod blend;
pub mod boxes;
pub mod suppress;
pub mod compose;
pub mod decode;
pub mod edges;
