//! Two-dimensional gravitational simulation support: a double-buffered
//! simulation state and a region-subdividing spatial index.

pub mod qtree;
pub mod universe;
