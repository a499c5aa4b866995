//! The generators: a random point of a region, a random polygon in it, and a
//! set of random polygons none of which intersects another.
//!
//! The draws are made in a fixed order. For a polygon: the `x` and the `y`
//! of one corner of a rectangle, the `x` and the `y` of the opposite corner,
//! the number of points, the `x` and the `y` of each point in turn, and the
//! offsets along `x` and along `y`. Each generator says in its contract what
//! it drew and what it made of it, so a shape depends on the parameters and
//! on the numbers drawn, and on nothing else.

use vstd::prelude::*;
use crate::accumulate::{Accumulation, Phase, Tally, lemma_offer};
use crate::contour::{contour_of, points_to_contour};
use crate::draws::{
    PolygonDraws, asks_on_from, bounds_of_fill, bounds_of_offsets, bounds_of_point,
    bounds_of_points, bounds_of_run, lemma_asks_on, lemma_bounds_of_points_push, coordinates, fill_outcome, goes_on_from, is_polygon_run, polygon_outcome,
    rectangle_in, point_at, lemma_coordinates_push, lemma_draws_in_log, lemma_drawn_ring,
    lemma_goes_on, lemma_polygon_run,
};
use crate::geometry::{
    Point, Polygon, MultiPolygon, moved_ring, can_move_ring, is_closed_ring, rings_disjoint,
};
use crate::parameters::{GeoRandParameters, GeoRandError, fails_with};
use crate::sampling::RandomSource;

verus! {

/// A shape that can be generated at random.
pub trait GeoRand<T>: Sized {
    /// `self` is a shape that `rand` may return for `parameters`.
    spec fn generated_from(&self, parameters: &GeoRandParameters<T>) -> bool;

    /// Generates a shape from draws of `rng`.
    fn rand(rng: &mut RandomSource, parameters: &GeoRandParameters<T>) -> (generated: Result<
        Self,
        GeoRandError,
    >)
        ensures
            generated matches Ok(shape) ==> shape.generated_from(parameters),
    ;
}

/// `ring` is the ring of draws that can be made for `parameters`.
pub open spec fn is_generated_ring(ring: Seq<Point>, parameters: GeoRandParameters<i32>) -> bool {
    exists|draws: PolygonDraws| #[trigger] draws.admissible(parameters) && ring == draws.ring()
}

/// A generated ring is closed, has at least 3 points and at most
/// `max_polygon_vertices_count`, the closing one counted, and every one of
/// them lies in the region.
pub proof fn lemma_generated_ring(ring: Seq<Point>, parameters: GeoRandParameters<i32>)
    requires
        is_generated_ring(ring, parameters),
    ensures
        is_closed_ring(ring),
        3 <= ring.len() <= parameters.max_polygon_vertices_count,
        forall|k: int| 0 <= k < ring.len() ==> parameters.holds(#[trigger] ring[k]),
{
    let draws = choose|draws: PolygonDraws| #[trigger]
        draws.admissible(parameters) && ring == draws.ring();
    lemma_drawn_ring(draws, parameters);
}

/// Every polygon of a generated set is a closed ring of at least 3 points
/// and of at most `max_polygon_vertices_count`, and every point of it lies
/// in the region.
pub proof fn lemma_generated_set(set: MultiPolygon, parameters: GeoRandParameters<i32>, i: int)
    requires
        set.generated_from(&parameters),
        0 <= i < set@.len(),
    ensures
        is_closed_ring(set@[i]),
        3 <= set@[i].len() <= parameters.max_polygon_vertices_count,
        forall|k: int| 0 <= k < set@[i].len() ==> parameters.holds(#[trigger] set@[i][k]),
{
    lemma_generated_ring(set@[i], parameters);
}

impl Polygon {
    /// The polygon whose ring is the contour of `vertices`, moved by `dx`
    /// along `x` and by `dy` along `y`. There is none of no points.
    pub fn from_vertices(vertices: &[Point], dx: i64, dy: i64) -> (polygon: Option<Polygon>)
        requires
            can_move_ring(vertices@, dx as int, dy as int),
        ensures
            polygon is None <==> vertices@.len() == 0,
            polygon matches Some(made) ==> made@ == moved_ring(
                contour_of(vertices@),
                dx as int,
                dy as int,
            ),
    {
        match points_to_contour(vertices) {
            Some(contour) => {
                proof {
                    assert forall|k: int| 0 <= k < contour@.len() implies {
                        &&& i32::MIN <= (#[trigger] contour@[k]).x + dx <= i32::MAX
                        &&& i32::MIN <= contour@[k].y + dy <= i32::MAX
                    } by {
                        assert(vertices@.contains(contour@[k]));
                        let i = choose|i: int|
                            0 <= i < vertices@.len() && vertices@[i] == contour@[k];
                        assert(i32::MIN <= vertices@[i].x + dx <= i32::MAX);
                    }
                }
                Some(Polygon::new(contour).translate(dx, dy))
            },
            None => None,
        }
    }
}

impl GeoRand<i32> for Point {
    /// The point lies in the region, its upper bounds left out.
    open spec fn generated_from(&self, parameters: &GeoRandParameters<i32>) -> bool {
        parameters.holds(*self)
    }

    /// Draws a point of the region: first its `x`, from `min_x` up to, but
    /// without, `max_x`, then its `y`, from `min_y` up to, but without,
    /// `max_y`. These two numbers are all that is drawn.
    ///
    /// Fails, without drawing, where the region has no point to draw.
    fn rand(rng: &mut RandomSource, parameters: &GeoRandParameters<i32>) -> (generated: Result<
        Point,
        GeoRandError,
    >)
        ensures
            generated is Ok <==> parameters.has_region(),
            generated matches Ok(point) ==> final(rng).drawn() == old(rng).drawn().push(
                point.x as int,
            ).push(point.y as int),
            generated is Ok ==> final(rng).asked() == old(rng).asked() + bounds_of_point(
                *parameters,
            ),
            generated is Err ==> fails_with(generated, GeoRandError::EmptyCoordinateRange)
                && *final(rng) == *old(rng),
    {
        if parameters.min_x < parameters.max_x && parameters.min_y < parameters.max_y {
            let x: i64 = rng.draw_between(parameters.min_x as i64, parameters.max_x as i64);
            let y: i64 = rng.draw_between(parameters.min_y as i64, parameters.max_y as i64);
            assert(rng.asked() =~= old(rng).asked() + bounds_of_point(*parameters));
            Ok(Point { x: x as i32, y: y as i32 })
        } else {
            Err(GeoRandError::EmptyCoordinateRange)
        }
    }
}

impl GeoRand<i32> for Polygon {
    /// The exterior ring is the ring of draws that can be made for
    /// `parameters`.
    open spec fn generated_from(&self, parameters: &GeoRandParameters<i32>) -> bool {
        is_generated_ring(self@, *parameters)
    }

    /// Generates a polygon in the region: draws two corners of a rectangle in
    /// the region, a number of points from 3 up to, but without,
    /// `max_polygon_vertices_count`, that many points in the rectangle, and
    /// two offsets that keep the rectangle in the region; the polygon is the
    /// contour of the points, moved by the offsets.
    ///
    /// Fails, without drawing, where the region has no point to draw, and
    /// else where `max_polygon_vertices_count` is 3 or less. Fails after
    /// five draws where the two corners share an `x` or a `y`, as they must
    /// in a region that is one wide or one high: the rectangle between them
    /// then has no point to draw.
    ///
    /// What is drawn is logged in the order of `PolygonDraws::log`, each
    /// number between the bounds that `bounds_of_run` gives it, and the
    /// outcome is `polygon_outcome` of the parameters and of what was drawn.
    fn rand(rng: &mut RandomSource, parameters: &GeoRandParameters<i32>) -> (generated: Result<
        Polygon,
        GeoRandError,
    >)
        ensures
            final(rng).extends(old(rng).drawn()),
            is_polygon_run(*parameters, final(rng).drawn_since(old(rng).drawn())),
            ring_of(generated) == polygon_outcome(
                *parameters,
                final(rng).drawn_since(old(rng).drawn()),
            ),
            final(rng).asked() == old(rng).asked() + bounds_of_run(
                *parameters,
                final(rng).drawn_since(old(rng).drawn()),
            ),
            parameters.fault() is Some ==> *final(rng) == *old(rng),
            parameters.is_thin() ==> generated is Err,
            generated matches Ok(polygon) ==> {
                &&& is_closed_ring(polygon@)
                &&& 3 <= polygon@.len() <= parameters.max_polygon_vertices_count
                &&& forall|k: int|
                    0 <= k < polygon@.len() ==> parameters.holds(#[trigger] polygon@[k])
            },
    {
        let ghost before = rng.drawn();
        let ghost asked_before = rng.asked();
        match parameters.validate() {
            Ok(()) => {},
            Err(error) => {
                assert(rng.drawn_since(before) =~= Seq::<int>::empty());
                assert(before + Seq::<int>::empty() =~= before);
                assert(asked_before + Seq::<(int, int)>::empty() =~= asked_before);
                return Err(error);
            },
        }
        let corner = Point::rand(rng, parameters).unwrap();
        let opposite = Point::rand(rng, parameters).unwrap();
        let inner = parameters.sub_rectangle(corner, opposite);
        let count: usize = rng.draw_count(3, parameters.max_polygon_vertices_count);
        let ghost head = seq![
            corner.x as int,
            corner.y as int,
            opposite.x as int,
            opposite.y as int,
            count as int,
        ];
        let ghost head_bounds = bounds_of_point(*parameters) + bounds_of_point(*parameters) + seq![
            (3int, parameters.max_polygon_vertices_count as int),
        ];
        let mut vertices: Vec<Point> = Vec::new();
        proof {
            assert(bounds_of_points(inner, 0) =~= Seq::<(int, int)>::empty());
            assert(rng.asked() =~= asked_before + head_bounds + bounds_of_points(inner, 0));
            assert(coordinates(vertices@) =~= Seq::<int>::empty());
            assert(rng.drawn() =~= before + head + coordinates(vertices@));
            assert(point_at(head, 0) == corner);
            assert(point_at(head, 2) == opposite);
        }
        while vertices.len() < count
            invariant
                vertices@.len() <= count,
                before == old(rng).drawn(),
                parameters.fault() is None,
                inner == rectangle_in(*parameters, head),
                parameters.holds(corner),
                parameters.holds(opposite),
                head == seq![
                    corner.x as int,
                    corner.y as int,
                    opposite.x as int,
                    opposite.y as int,
                    count as int,
                ],
                3 <= count < parameters.max_polygon_vertices_count,
                rng.drawn() == before + head + coordinates(vertices@),
                asked_before == old(rng).asked(),
                head_bounds == bounds_of_point(*parameters) + bounds_of_point(*parameters) + seq![
                    (3int, parameters.max_polygon_vertices_count as int),
                ],
                rng.asked() == asked_before + head_bounds + bounds_of_points(
                    inner,
                    vertices@.len(),
                ),
                !inner.has_region() ==> vertices@.len() == 0,
                forall|i: int| 0 <= i < vertices@.len() ==> inner.holds(#[trigger] vertices@[i]),
            decreases count - vertices@.len(),
        {
            match Point::rand(rng, &inner) {
                Ok(point) => {
                    proof {
                        lemma_coordinates_push(vertices@, point);
                        assert(rng.drawn() =~= before + head + coordinates(vertices@.push(point)));
                        lemma_bounds_of_points_push(inner, vertices@.len());
                        assert(rng.asked() =~= asked_before + head_bounds + bounds_of_points(
                            inner,
                            vertices@.len() + 1,
                        ));
                    }
                    vertices.push(point);
                },
                Err(error) => {
                    proof {
                        assert(coordinates(vertices@) =~= Seq::<int>::empty());
                        assert(rng.drawn_since(before) =~= head);
                        assert(rng.drawn() =~= before + head);
                        assert(bounds_of_points(inner, 0) =~= Seq::<(int, int)>::empty());
                        assert(rng.asked() =~= asked_before + head_bounds);
                    }
                    return Err(error);
                },
            }
        }
        let dx: i64 = rng.draw_between(
            parameters.min_x as i64 - inner.min_x as i64,
            parameters.max_x as i64 - inner.max_x as i64,
        );
        let dy: i64 = rng.draw_between(
            parameters.min_y as i64 - inner.min_y as i64,
            parameters.max_y as i64 - inner.max_y as i64,
        );
        let ghost draws = PolygonDraws {
            corner,
            opposite,
            vertices: vertices@,
            dx: dx as int,
            dy: dy as int,
        };
        proof {
            assert(inner.holds(vertices@[0]));
            assert(draws.admissible(*parameters));
            lemma_drawn_ring(draws, *parameters);
            lemma_draws_in_log(draws);
            assert(rng.drawn() =~= before + draws.log());
            assert(rng.drawn_since(before) =~= draws.log());
            assert(point_at(draws.log(), 0) == corner);
            assert(point_at(draws.log(), 2) == opposite);
            assert(draws.log()[4] == vertices@.len());
            assert(rng.asked() =~= asked_before + (head_bounds + bounds_of_points(
                inner,
                vertices@.len(),
            ) + bounds_of_offsets(*parameters, inner)));
        }
        let polygon = Polygon::from_vertices(vertices.as_slice(), dx, dy).unwrap();
        assert(polygon@ == draws.ring());
        Ok(polygon)
    }
}

/// What was generated, with a polygon given by its ring.
pub open spec fn ring_of(generated: Result<Polygon, GeoRandError>) -> Result<
    Seq<Point>,
    GeoRandError,
> {
    match generated {
        Ok(polygon) => Ok(polygon@),
        Err(error) => Err(error),
    }
}

/// What was generated, with each polygon given by its ring.
pub open spec fn rings_of(generated: Result<MultiPolygon, GeoRandError>) -> Result<
    Seq<Seq<Point>>,
    GeoRandError,
> {
    match generated {
        Ok(set) => Ok(set@),
        Err(error) => Err(error),
    }
}

/// What was accumulated, as a tally.
pub open spec fn tally_of(filled: Result<Accumulation, GeoRandError>) -> Result<Tally, GeoRandError> {
    match filled {
        Ok(state) => Ok(state@),
        Err(error) => Err(error),
    }
}

/// The rings of a tally, or the failure.
pub open spec fn accepted_in(outcome: Result<Tally, GeoRandError>) -> Result<
    Seq<Seq<Point>>,
    GeoRandError,
> {
    match outcome {
        Ok(tally) => Ok(tally.accepted),
        Err(error) => Err(error),
    }
}

/// The rings are what a generation for `parameters` may accept: at most
/// `max_polygons_count` rings, each generated from `parameters`. Without a
/// budget of collisions there are exactly that many; with one, no ring
/// intersects one that stands before it, and with a budget of zero there is
/// no ring.
pub open spec fn are_generated_rings(rings: Seq<Seq<Point>>, parameters: GeoRandParameters<i32>) -> bool {
    &&& rings.len() <= parameters.max_polygons_count
    &&& forall|i: int| 0 <= i < rings.len() ==> is_generated_ring(#[trigger] rings[i], parameters)
    &&& parameters.max_collisions_count is None ==> rings.len() == parameters.max_polygons_count
    &&& parameters.max_collisions_count is Some ==> rings_disjoint(rings)
    &&& parameters.max_collisions_count == Some(0u32) ==> rings.len() == 0
}

impl GeoRand<i32> for MultiPolygon {
    /// The rings of the polygons are what a generation for `parameters` may
    /// accept.
    open spec fn generated_from(&self, parameters: &GeoRandParameters<i32>) -> bool {
        are_generated_rings(self@, *parameters)
    }

    /// Generates polygons one after the other until there are
    /// `max_polygons_count` of them. With a budget of collisions, a polygon
    /// that intersects one accepted earlier is thrown away and counted, and
    /// the generation ends, with the polygons accepted so far, once the count
    /// reaches the budget. Without a budget every polygon is accepted.
    ///
    /// Where no polygon is asked for, or the budget is zero, the result is
    /// empty and nothing is drawn. Else the generation fails as soon as that
    /// of a polygon does.
    ///
    /// The outcome is `fill_outcome` of the parameters and of what was
    /// drawn, each number between the bounds that `bounds_of_fill` gives it.
    fn rand(rng: &mut RandomSource, parameters: &GeoRandParameters<i32>) -> (generated: Result<
        MultiPolygon,
        GeoRandError,
    >)
        ensures
            final(rng).extends(old(rng).drawn()),
            fill_outcome(*parameters, Tally::empty(), final(rng).drawn_since(old(rng).drawn()))
                matches Some(outcome) && rings_of(generated) == accepted_in(outcome),
            final(rng).asked() == old(rng).asked() + bounds_of_fill(
                *parameters,
                Tally::empty(),
                final(rng).drawn_since(old(rng).drawn()),
            ),
            parameters.asks_nothing() ==> generated is Ok && *final(rng) == *old(rng),
            !parameters.asks_nothing() ==> (parameters.fault() matches Some(error) ==> fails_with(
                generated,
                error,
            ) && *final(rng) == *old(rng)),
            fails_with(generated, GeoRandError::EmptyVertexCountRange) ==> !parameters.asks_nothing()
                && parameters.fault() == Some(GeoRandError::EmptyVertexCountRange),
            !parameters.asks_nothing() && parameters.is_thin() ==> generated is Err,
    {
        match Accumulation::fill(rng, parameters) {
            Ok(filled) => Ok(filled.accepted),
            Err(error) => Err(error),
        }
    }
}

impl Accumulation {
    /// Generates polygons and offers them to an accumulation that starts
    /// empty, until the accumulation is over: it is returned as it then
    /// stands, with the polygons accepted and the collisions counted.
    ///
    /// Where no polygon is asked for, or the budget is zero, nothing is
    /// drawn. Else this fails as soon as the generation of a polygon does.
    ///
    /// The outcome is `fill_outcome` of the parameters and of what was
    /// drawn, each number between the bounds that `bounds_of_fill` gives it.
    pub fn fill(rng: &mut RandomSource, parameters: &GeoRandParameters<i32>) -> (filled: Result<
        Accumulation,
        GeoRandError,
    >)
        ensures
            final(rng).extends(old(rng).drawn()),
            fill_outcome(*parameters, Tally::empty(), final(rng).drawn_since(old(rng).drawn()))
                == Some(tally_of(filled)),
            final(rng).asked() == old(rng).asked() + bounds_of_fill(
                *parameters,
                Tally::empty(),
                final(rng).drawn_since(old(rng).drawn()),
            ),
            filled matches Ok(state) ==> {
                &&& state@.phase(*parameters) != Phase::Accumulating
                &&& state.accepted.generated_from(parameters)
                &&& state@.is_within_budget(*parameters)
            },
            parameters.asks_nothing() ==> filled is Ok && *final(rng) == *old(rng),
            !parameters.asks_nothing() ==> (parameters.fault() matches Some(error) ==> fails_with(
                filled,
                error,
            ) && *final(rng) == *old(rng)),
            fails_with(filled, GeoRandError::EmptyVertexCountRange) ==> !parameters.asks_nothing()
                && parameters.fault() == Some(GeoRandError::EmptyVertexCountRange),
            !parameters.asks_nothing() && parameters.is_thin() ==> filled is Err,
    {
        let ghost before = rng.drawn();
        let ghost asked_before = rng.asked();
        let mut state = Accumulation::new();
        proof {
            assert(rng.asked() =~= asked_before + Seq::<(int, int)>::empty());
            assert forall|rest: Seq<int>| #[trigger]
                bounds_of_fill(*parameters, Tally::empty(), Seq::<int>::empty() + rest) == Seq::<
                    (int, int),
                >::empty() + bounds_of_fill(*parameters, state@, rest) by {
                assert(Seq::<int>::empty() + rest =~= rest);
                assert(Seq::<(int, int)>::empty() + bounds_of_fill(*parameters, state@, rest)
                    =~= bounds_of_fill(*parameters, state@, rest));
            }
            assert(rng.drawn() =~= before + Seq::<int>::empty());
            assert forall|rest: Seq<int>| #[trigger]
                fill_outcome(*parameters, Tally::empty(), Seq::<int>::empty() + rest)
                    == fill_outcome(*parameters, state@, rest) by {
                assert(Seq::<int>::empty() + rest =~= rest);
            }
        }
        let ghost mut consumed = Seq::<int>::empty();
        let ghost mut asked = Seq::<(int, int)>::empty();
        while state.phase(parameters) == Phase::Accumulating
            invariant
                before == old(rng).drawn(),
                asked_before == old(rng).asked(),
                rng.drawn() == before + consumed,
                rng.asked() == asked_before + asked,
                goes_on_from(*parameters, consumed, state@),
                asks_on_from(*parameters, consumed, asked, state@),
                state@.accepted.len() <= parameters.max_polygons_count,
                forall|i: int|
                    0 <= i < state@.accepted.len() ==> is_generated_ring(
                        #[trigger] state@.accepted[i],
                        *parameters,
                    ),
                parameters.max_collisions_count is Some ==> rings_disjoint(state@.accepted),
                state@.is_within_budget(*parameters),
                parameters.asks_nothing() ==> state@ == Tally::empty(),
                state@ == Tally::empty() ==> *rng == *old(rng),
                state@ != Tally::empty() ==> parameters.fault() is None && !parameters.is_thin(),
            decreases state@.distance(*parameters),
        {
            let ghost middle = rng.drawn();
            let ghost tally = state@;
            let candidate = match Polygon::rand(rng, parameters) {
                Ok(polygon) => polygon,
                Err(error) => {
                    proof {
                        let run = rng.drawn_since(middle);
                        lemma_goes_on(*parameters, consumed, tally, run);
                        lemma_asks_on(*parameters, consumed, asked, tally, run);
                        assert(rng.drawn() =~= before + (consumed + run));
                        assert(rng.drawn_since(before) =~= consumed + run);
                        assert(rng.asked() =~= asked_before + (asked + bounds_of_run(
                            *parameters,
                            run,
                        )));
                    }
                    return Err(error);
                },
            };
            proof {
                let run = rng.drawn_since(middle);
                lemma_goes_on(*parameters, consumed, tally, run);
                lemma_polygon_run(*parameters, run);
                lemma_asks_on(*parameters, consumed, asked, tally, run);
                lemma_offer(tally, candidate@, *parameters);
                assert(rng.drawn() =~= before + (consumed + run));
                assert(rng.asked() =~= asked_before + (asked + bounds_of_run(*parameters, run)));
                consumed = consumed + run;
                asked = asked + bounds_of_run(*parameters, run);
            }
            state.offer(candidate, parameters);
        }
        proof {
            assert(rng.drawn_since(before) =~= consumed);
            assert(consumed + Seq::<int>::empty() =~= consumed);
            assert(bounds_of_fill(*parameters, Tally::empty(), consumed + Seq::<int>::empty())
                == asked + bounds_of_fill(*parameters, state@, Seq::<int>::empty()));
            assert(asked + Seq::<(int, int)>::empty() =~= asked);
        }
        Ok(state)
    }
}

} // verus!
