//! Travelling-salesman art on an integer grid: weighted stippling of a
//! brightness raster and the construction of one closed tour through the
//! stipples.
//!
//! Positions are whole numbers of grid units, `UNITS_PER_PIXEL` to the
//! pixel, and lengths are squared: every cost and every comparison of the
//! library is exact. The Voronoi cells of a relaxation and the convex
//! hull that seeds a tour come from outside the library, as plain
//! positions.

pub mod geometry;
pub mod tour;
pub mod two_opt;
pub mod sweep;
pub mod hull;
pub mod tour_strategy;
pub mod cheapest_insertion;
pub mod spatial_index;
pub mod greedy;
pub mod crowding;
pub mod orchestrator;
pub mod density;
pub mod sampler;
pub mod stippling;
pub mod hilbert_curve;
pub mod image_processing;
