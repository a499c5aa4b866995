//! Points, polygons and sets of polygons on the integer grid.

use vstd::prelude::*;
use geo::Intersects;

verus! {

/// A point of the integer grid.
///
/// Coordinates are 32-bit, so that every difference of two coordinates fits
/// in 64 bits and every product of two such differences in 128 bits: the
/// geometric tests of this crate are computed exactly, for all points.
#[derive(Clone, Copy, Debug, PartialEq, Eq, Hash, Structural)]
pub struct Point {
    pub x: i32,
    pub y: i32,
}

impl Point {
    /// Builds the point with the given coordinates.
    pub fn new(x: i32, y: i32) -> (point: Point)
        ensures
            point.x == x,
            point.y == y,
    {
        Point { x, y }
    }
}

/// A ring is closed where it is empty or ends at the point at which it starts.
pub open spec fn is_closed_ring(ring: Seq<Point>) -> bool {
    ring.len() > 0 ==> ring.first() == ring.last()
}

/// The ring closed: where it does not end at its first point, that point is
/// added at the end.
pub open spec fn closed_ring(ring: Seq<Point>) -> Seq<Point> {
    if is_closed_ring(ring) {
        ring
    } else {
        ring.push(ring.first())
    }
}

/// The point moved by `dx` along `x` and by `dy` along `y`.
pub open spec fn moved_point(p: Point, dx: int, dy: int) -> Point {
    Point { x: (p.x + dx) as i32, y: (p.y + dy) as i32 }
}

/// Every point of the ring moved by `dx` and `dy`.
pub open spec fn moved_ring(ring: Seq<Point>, dx: int, dy: int) -> Seq<Point> {
    Seq::new(ring.len(), |k: int| moved_point(ring[k], dx, dy))
}

/// Every point of the ring, moved by `dx` and `dy`, still has 32-bit
/// coordinates.
pub open spec fn can_move_ring(ring: Seq<Point>, dx: int, dy: int) -> bool {
    forall|k: int|
        0 <= k < ring.len() ==> {
            &&& i32::MIN <= (#[trigger] ring[k]).x + dx <= i32::MAX
            &&& i32::MIN <= ring[k].y + dy <= i32::MAX
        }
}

/// Whether two polygons, given by their exterior rings, have a point in
/// common: what `geo` answers for them. It depends on the two rings alone.
pub uninterp spec fn polygons_intersect(first: Seq<Point>, second: Seq<Point>) -> bool;

/// A polygon without holes, given by its exterior ring. The ring is closed.
#[derive(Debug, PartialEq, Eq)]
pub struct Polygon {
    exterior: Vec<Point>,
}

impl View for Polygon {
    type V = Seq<Point>;

    /// The exterior ring.
    closed spec fn view(&self) -> Seq<Point> {
        self.exterior@
    }
}

/// Asks `geo` whether two polygons intersect: `Intersects::intersects` on
/// two `geo::Polygon<i128>` without holes, built from the two exterior rings
/// point by point. In 128 bits none of the products that `geo` forms of
/// differences of 32-bit coordinates can overflow. The answer is a function
/// of the two rings; the contract gives it its name and claims nothing else
/// of it.
#[verifier::external_body]
fn rings_intersect(first: &Polygon, second: &Polygon) -> (hit: bool)
    ensures
        hit == polygons_intersect(first@, second@),
{
    let a: Vec<(i128, i128)> = first.exterior.iter().map(|p| (i128::from(p.x), i128::from(p.y))).collect();
    let b: Vec<(i128, i128)> = second.exterior.iter().map(|p| (i128::from(p.x), i128::from(p.y))).collect();
    let first_polygon = geo::Polygon::new(geo::LineString::from(a), Vec::new());
    let second_polygon = geo::Polygon::new(geo::LineString::from(b), Vec::new());
    first_polygon.intersects(&second_polygon)
}

impl Polygon {
    #[verifier::type_invariant]
    spec fn ring_is_closed(self) -> bool {
        is_closed_ring(self.exterior@)
    }

    /// Builds the polygon with the given exterior ring, closing the ring
    /// where it is open.
    pub fn new(exterior: Vec<Point>) -> (polygon: Polygon)
        ensures
            polygon@ == closed_ring(exterior@),
            is_closed_ring(polygon@),
    {
        let mut exterior = exterior;
        if exterior.len() > 0 {
            let first = exterior[0];
            let last = exterior[exterior.len() - 1];
            if first != last {
                exterior.push(first);
            }
        }
        Polygon { exterior }
    }

    /// The exterior ring.
    pub fn exterior(&self) -> (ring: &Vec<Point>)
        ensures
            ring@ == self@,
            is_closed_ring(self@),
    {
        proof {
            use_type_invariant(self);
        }
        &self.exterior
    }

    /// The polygon moved by `dx` along `x` and by `dy` along `y`.
    pub fn translate(&self, dx: i64, dy: i64) -> (moved: Polygon)
        requires
            can_move_ring(self@, dx as int, dy as int),
        ensures
            moved@ == moved_ring(self@, dx as int, dy as int),
    {
        proof {
            use_type_invariant(self);
        }
        let mut ring: Vec<Point> = Vec::new();
        let mut k: usize = 0;
        while k < self.exterior.len()
            invariant
                k <= self.exterior.len(),
                can_move_ring(self.exterior@, dx as int, dy as int),
                ring@ == moved_ring(self.exterior@.take(k as int), dx as int, dy as int),
            decreases self.exterior.len() - k,
        {
            let p = self.exterior[k];
            assert(i32::MIN <= self.exterior@[k as int].x + dx <= i32::MAX);
            let x: i64 = p.x as i64 + dx;
            let y: i64 = p.y as i64 + dy;
            ring.push(Point { x: x as i32, y: y as i32 });
            k += 1;
            assert(ring@ =~= moved_ring(self.exterior@.take(k as int), dx as int, dy as int));
        }
        assert(self.exterior@.take(k as int) =~= self.exterior@);
        Polygon { exterior: ring }
    }
}

impl Clone for Polygon {
    fn clone(&self) -> (copy: Polygon)
        ensures
            copy@ == self@,
    {
        proof {
            use_type_invariant(self);
        }
        let mut ring: Vec<Point> = Vec::new();
        let mut k: usize = 0;
        while k < self.exterior.len()
            invariant
                k <= self.exterior.len(),
                ring@ == self.exterior@.take(k as int),
            decreases self.exterior.len() - k,
        {
            ring.push(self.exterior[k]);
            k += 1;
            assert(ring@ =~= self.exterior@.take(k as int));
        }
        assert(self.exterior@.take(k as int) =~= self.exterior@);
        Polygon { exterior: ring }
    }
}

/// `candidate` intersects one of the rings.
pub open spec fn rings_hit(rings: Seq<Seq<Point>>, candidate: Seq<Point>) -> bool {
    exists|i: int| 0 <= i < rings.len() && polygons_intersect(candidate, #[trigger] rings[i])
}

/// No ring intersects one that stands before it.
pub open spec fn rings_disjoint(rings: Seq<Seq<Point>>) -> bool {
    forall|i: int, j: int|
        0 <= i < j < rings.len() ==> !polygons_intersect(#[trigger] rings[j], #[trigger] rings[i])
}

/// Polygons, in the order in which they were accepted.
#[derive(Debug, PartialEq, Eq)]
pub struct MultiPolygon(pub Vec<Polygon>);

impl View for MultiPolygon {
    type V = Seq<Seq<Point>>;

    /// The exterior rings of the polygons.
    open spec fn view(&self) -> Seq<Seq<Point>> {
        Seq::new(self.0@.len(), |i: int| self.0@[i]@)
    }
}

impl Clone for MultiPolygon {
    fn clone(&self) -> (copy: MultiPolygon)
        ensures
            copy@ == self@,
    {
        let mut polygons: Vec<Polygon> = Vec::new();
        let mut k: usize = 0;
        while k < self.0.len()
            invariant
                k <= self.0.len(),
                polygons@.len() == k,
                forall|i: int| 0 <= i < k ==> (#[trigger] polygons@[i])@ == self.0@[i]@,
            decreases self.0.len() - k,
        {
            polygons.push(self.0[k].clone());
            k += 1;
        }
        let copy = MultiPolygon(polygons);
        assert(copy@ =~= self@);
        copy
    }
}

impl MultiPolygon {
    /// Whether `candidate` intersects one of the polygons: each is asked in
    /// turn, up to the first that it intersects.
    pub fn intersects(&self, candidate: &Polygon) -> (hit: bool)
        ensures
            hit == rings_hit(self@, candidate@),
    {
        let mut i: usize = 0;
        while i < self.0.len()
            invariant
                i <= self.0.len(),
                forall|k: int| 0 <= k < i ==> !polygons_intersect(candidate@, #[trigger] self@[k]),
            decreases self.0.len() - i,
        {
            if rings_intersect(candidate, &self.0[i]) {
                assert(polygons_intersect(candidate@, self@[i as int]));
                return true;
            }
            i += 1;
        }
        false
    }
}

} // verus!
