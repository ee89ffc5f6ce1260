//! Quadtree-based brick reducer: collapses a heightmap/colormap pixel grid
//! into as few non-overlapping rectangular bricks as possible, assigning each
//! surviving rectangle a vertical extent from its neighbouring heights.

pub mod emit;
pub mod hset;
pub mod laws;
pub mod map;
pub mod quad;
pub mod reduce;
pub mod util;
