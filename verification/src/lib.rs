//! Random shapes on the integer grid: points, polygons built from random
//! points by a two-chain contour, and sets of polygons none of which
//! intersects another.
//!
//! Coordinates are 32-bit integers. Every geometric test is computed exactly,
//! in wider integers, and whether two polygons intersect is asked of `geo`.
//! Random numbers come from `rand`'s standard generator, wrapped in a
//! [`RandomSource`] that logs, for proofs only, every number handed out and
//! the bounds it was asked between: the contract of each generator says
//! what was asked for, in which order, what was drawn, and what shape was
//! made of it.
//!
//! On a grid two corners drawn for a polygon may share an `x` or a `y`. The
//! rectangle between them then has no point to draw, and the generation
//! fails with [`GeoRandError::EmptyCoordinateRange`]; nothing is drawn anew
//! and nothing is widened. In a region of a hundred by a hundred this
//! happens to one polygon in fifty, so a set of sixty polygons is seldom
//! completed there; in a region a million wide it is rare. Choose the unit of
//! the grid small enough for the region to be wide in it.

pub mod accumulate;
pub mod chain;
pub mod contour;
pub mod draws;
pub mod generate;
pub mod geometry;
pub mod parameters;
pub mod replay;
pub mod sampling;

pub use crate::accumulate::{Accumulation, Phase};
pub use crate::generate::GeoRand;
pub use crate::geometry::{MultiPolygon, Point, Polygon};
pub use crate::parameters::{GeoRandError, GeoRandParameters};
pub use crate::sampling::RandomSource;
