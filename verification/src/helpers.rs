//! The map model and the algorithms that build and query it.

pub mod distance;
pub mod distance_field;
pub mod geometry;
pub mod map;
pub mod map_builder;
pub mod paths;
pub mod random;
pub mod range_finder;
pub mod tiles;
