//! Rendering core for rectangular views of a large static raster map with
//! vector territory overlays: a read-only territory registry, a viewport
//! fitter, a tile stitcher and an overlay compositor.

pub mod instructions;
pub mod path;
pub mod render;
pub mod territory;
pub mod tiles;
pub mod viewport;
