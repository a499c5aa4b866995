//! What a generation is asked for, and how it can fail.

use vstd::prelude::*;
use crate::geometry::Point;

verus! {

/// The parameters of a generation.
///
/// The region is the rectangle from `(min_x, min_y)` to `(max_x, max_y)`.
/// Coordinates are drawn from it without its upper bounds, so it must have
/// `min_x < max_x` and `min_y < max_y`.
#[derive(Debug, Copy, PartialEq)]
pub struct GeoRandParameters<T> {
    /// How many polygons a set of polygons shall hold.
    pub max_polygons_count: usize,
    /// A polygon is built from at least 3 points and from fewer than this.
    pub max_polygon_vertices_count: usize,
    /// How many polygons may be thrown away because they intersect one that
    /// was accepted; with `None`, polygons are accepted untested.
    pub max_collisions_count: Option<u32>,
    pub min_x: T,
    pub min_y: T,
    pub max_x: T,
    pub max_y: T,
}

impl<T: Copy> Clone for GeoRandParameters<T> {
    fn clone(&self) -> (copy: Self)
        ensures
            copy == *self,
    {
        *self
    }
}

/// Why nothing was generated.
#[derive(Debug, Copy, Clone, PartialEq, Eq, Structural)]
pub enum GeoRandError {
    /// A coordinate was to be drawn between a bound and a bound that is not
    /// larger: the region has `min_x >= max_x` or `min_y >= max_y`, or the two
    /// corners drawn for a polygon share an `x` or a `y`.
    EmptyCoordinateRange,
    /// `max_polygon_vertices_count` is 3 or less, so there is no number of
    /// points that a polygon could be built from.
    EmptyVertexCountRange,
}

/// The outcome is the failure `error`.
pub open spec fn fails_with<S>(outcome: Result<S, GeoRandError>, error: GeoRandError) -> bool {
    outcome matches Err(found) && found == error
}

impl Default for GeoRandParameters<i32> {
    /// Sixty polygons of fewer than seven points each, a hundred collisions,
    /// in the square from `(0, 0)` to `(100, 100)`.
    fn default() -> (parameters: Self)
        ensures
            parameters.max_polygons_count == 60,
            parameters.max_polygon_vertices_count == 7,
            parameters.max_collisions_count == Some(100u32),
            parameters.min_x == 0,
            parameters.min_y == 0,
            parameters.max_x == 100,
            parameters.max_y == 100,
    {
        GeoRandParameters {
            max_polygons_count: 60,
            max_polygon_vertices_count: 7,
            max_collisions_count: Some(100),
            min_x: 0,
            min_y: 0,
            max_x: 100,
            max_y: 100,
        }
    }
}

impl GeoRandParameters<i32> {
    /// The region has points to draw: `min < max` on both axes.
    pub open spec fn has_region(&self) -> bool {
        self.min_x < self.max_x && self.min_y < self.max_y
    }

    /// `p` is a point that can be drawn from the region: on each axis it is
    /// at least `min` and less than `max`.
    pub open spec fn holds(&self, p: Point) -> bool {
        &&& self.min_x <= p.x < self.max_x
        &&& self.min_y <= p.y < self.max_y
    }

    /// What is wrong with the parameters, if anything: the region is looked
    /// at first, then the number of points.
    pub open spec fn fault(&self) -> Option<GeoRandError> {
        if !self.has_region() {
            Some(GeoRandError::EmptyCoordinateRange)
        } else if self.max_polygon_vertices_count <= 3 {
            Some(GeoRandError::EmptyVertexCountRange)
        } else {
            None
        }
    }

    /// The region is one wide or one high: any two points drawn from it
    /// share an `x` or a `y`.
    pub open spec fn is_thin(&self) -> bool {
        self.max_x - self.min_x == 1 || self.max_y - self.min_y == 1
    }

    /// No polygon is asked for: the count of polygons is zero, or the budget
    /// of collisions is.
    pub open spec fn asks_nothing(&self) -> bool {
        self.max_polygons_count == 0 || self.is_exhausted_by(0)
    }

    /// No further collision is allowed once `collisions` have been counted.
    pub open spec fn is_exhausted_by(&self, collisions: u32) -> bool {
        self.max_collisions_count matches Some(budget) && collisions >= budget
    }

    /// These parameters with the region replaced by the rectangle that has `a`
    /// and `b` as opposite corners.
    pub open spec fn sub_rectangle_of(&self, a: Point, b: Point) -> GeoRandParameters<i32> {
        GeoRandParameters {
            max_polygons_count: self.max_polygons_count,
            max_polygon_vertices_count: self.max_polygon_vertices_count,
            max_collisions_count: self.max_collisions_count,
            min_x: if a.x < b.x { a.x } else { b.x },
            min_y: if a.y < b.y { a.y } else { b.y },
            max_x: if a.x < b.x { b.x } else { a.x },
            max_y: if a.y < b.y { b.y } else { a.y },
        }
    }

    /// Tests the parameters as the generation of a polygon does, before it
    /// draws anything.
    pub fn validate(&self) -> (checked: Result<(), GeoRandError>)
        ensures
            checked is Ok <==> self.fault() is None,
            checked matches Err(error) ==> self.fault() == Some(error),
    {
        if !(self.min_x < self.max_x && self.min_y < self.max_y) {
            Err(GeoRandError::EmptyCoordinateRange)
        } else if self.max_polygon_vertices_count <= 3 {
            Err(GeoRandError::EmptyVertexCountRange)
        } else {
            Ok(())
        }
    }

    /// Whether the collisions counted so far use up the budget. Without a
    /// budget nothing does.
    pub fn is_exhausted(&self, collisions: u32) -> (exhausted: bool)
        ensures
            exhausted == self.is_exhausted_by(collisions),
    {
        match self.max_collisions_count {
            Some(budget) => collisions >= budget,
            None => false,
        }
    }

    /// The rectangle between two corners, each bound taken from the corner
    /// that has it smaller or larger; the counts are kept.
    pub fn sub_rectangle(&self, a: Point, b: Point) -> (inner: GeoRandParameters<i32>)
        ensures
            inner == self.sub_rectangle_of(a, b),
            self.holds(a) && self.holds(b) ==> self.min_x <= inner.min_x <= inner.max_x
                < self.max_x && self.min_y <= inner.min_y <= inner.max_y < self.max_y,
    {
        let (min_x, max_x) = if a.x < b.x {
            (a.x, b.x)
        } else {
            (b.x, a.x)
        };
        let (min_y, max_y) = if a.y < b.y {
            (a.y, b.y)
        } else {
            (b.y, a.y)
        };
        GeoRandParameters {
            max_polygons_count: self.max_polygons_count,
            max_polygon_vertices_count: self.max_polygon_vertices_count,
            max_collisions_count: self.max_collisions_count,
            min_x,
            min_y,
            max_x,
            max_y,
        }
    }
}

} // verus!
