//! Verified core of a Monte-Carlo path tracer: the parts whose logic is
//! discrete (row scheduling, the output frame, bounding-volume construction,
//! noise permutation tables, texel lookup and pixel formatting).

pub mod raster;
pub mod schedule;
pub mod frame;
pub mod color;
pub mod utils;
pub mod perlin;
pub mod aabb;
pub mod bvh;
pub mod texture;
