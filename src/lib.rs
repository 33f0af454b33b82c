//! Collision meshes for tile maps: the flagged cells of one level are
//! merged into few axis-aligned rectangles, first into horizontal runs
//! within each row and then into vertical stacks of identical runs.

pub mod tiles;
pub mod plates;
pub mod rects;
pub mod mesh;
pub mod laws;
pub mod world;
