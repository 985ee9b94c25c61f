//! Three-dimensional container loading: boxes are placed, one container at a
//! time, at extreme points that satisfy bound, overlap, support and payload
//! constraints.

pub mod entities;
pub mod constraint;
pub mod placement;
pub mod algorithm;
pub mod validate;
pub mod geometry;
