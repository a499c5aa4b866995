//! What the generation of a polygon draws, in the order in which it draws
//! it, and what it makes of the draws.

use vstd::prelude::*;
use crate::accumulate::{Phase, Tally};
use crate::contour::{contour_of, lemma_contour_shape, lemma_contour_points_are_given};
use crate::geometry::{Point, moved_ring, can_move_ring, is_closed_ring};
use crate::parameters::{GeoRandParameters, GeoRandError};

verus! {

/// The point whose `x` stands in the log at `at` and whose `y` stands behind
/// it.
pub open spec fn point_at(log: Seq<int>, at: int) -> Point {
    Point { x: log[at] as i32, y: log[at + 1] as i32 }
}

/// The `x` and the `y` of each point in turn.
pub open spec fn coordinates(points: Seq<Point>) -> Seq<int> {
    Seq::new(
        2 * points.len(),
        |k: int|
            if k % 2 == 0 {
                points[k / 2].x as int
            } else {
                points[k / 2].y as int
            },
    )
}

/// The bounds that the two coordinates of a point of the region are drawn
/// between: those of `x`, then those of `y`.
pub open spec fn bounds_of_point(parameters: GeoRandParameters<i32>) -> Seq<(int, int)> {
    seq![
        (parameters.min_x as int, parameters.max_x as int),
        (parameters.min_y as int, parameters.max_y as int),
    ]
}

/// The bounds that the coordinates of `count` points of the region are
/// drawn between, point after point.
pub open spec fn bounds_of_points(parameters: GeoRandParameters<i32>, count: nat) -> Seq<(int, int)> {
    Seq::new(
        2 * count,
        |k: int|
            if k % 2 == 0 {
                (parameters.min_x as int, parameters.max_x as int)
            } else {
                (parameters.min_y as int, parameters.max_y as int)
            },
    )
}

/// The bounds that the offsets are drawn between which move a rectangle
/// `inner` of the region: along `x`, then along `y`, from the way from the
/// rectangle's lower bound back to the region's up to, but without, the way
/// from its upper bound on to the region's.
pub open spec fn bounds_of_offsets(
    parameters: GeoRandParameters<i32>,
    inner: GeoRandParameters<i32>,
) -> Seq<(int, int)> {
    seq![
        (parameters.min_x - inner.min_x, parameters.max_x - inner.max_x),
        (parameters.min_y - inner.min_y, parameters.max_y - inner.max_y),
    ]
}

/// What is drawn for one polygon.
#[verifier::ext_equal]
pub struct PolygonDraws {
    /// One corner of the rectangle in which the points are drawn.
    pub corner: Point,
    /// The opposite corner.
    pub opposite: Point,
    /// The points, in the order in which they were drawn.
    pub vertices: Seq<Point>,
    /// The offset along `x` by which the contour is moved.
    pub dx: int,
    /// The offset along `y`.
    pub dy: int,
}

impl PolygonDraws {
    /// These draws can be made for `parameters`: both corners are points of
    /// the region; there are at least 3 points and fewer than
    /// `max_polygon_vertices_count`, each in the rectangle between the
    /// corners without its upper bounds; and each offset is at least the way
    /// from the rectangle's lower bound back to the region's, and less than
    /// the way from its upper bound on to the region's.
    pub open spec fn admissible(self, parameters: GeoRandParameters<i32>) -> bool {
        let inner = parameters.sub_rectangle_of(self.corner, self.opposite);
        &&& parameters.holds(self.corner)
        &&& parameters.holds(self.opposite)
        &&& 3 <= self.vertices.len() < parameters.max_polygon_vertices_count
        &&& forall|i: int| 0 <= i < self.vertices.len() ==> inner.holds(#[trigger] self.vertices[i])
        &&& parameters.min_x - inner.min_x <= self.dx < parameters.max_x - inner.max_x
        &&& parameters.min_y - inner.min_y <= self.dy < parameters.max_y - inner.max_y
    }

    /// The ring made of these draws: the contour of the points, moved by the
    /// offsets.
    pub open spec fn ring(self) -> Seq<Point> {
        moved_ring(contour_of(self.vertices), self.dx, self.dy)
    }

    /// The draws as they are logged: the `x` and the `y` of one corner, the
    /// `x` and the `y` of the opposite corner, the number of points, the `x`
    /// and the `y` of each point in turn, the offset along `x`, and the
    /// offset along `y`.
    pub open spec fn log(self) -> Seq<int> {
        seq![
            self.corner.x as int,
            self.corner.y as int,
            self.opposite.x as int,
            self.opposite.y as int,
            self.vertices.len() as int,
        ] + coordinates(self.vertices) + seq![self.dx, self.dy]
    }
}

/// The draws that a log begins with, read in the order of `PolygonDraws::log`.
pub open spec fn draws_in(log: Seq<int>) -> PolygonDraws {
    PolygonDraws {
        corner: point_at(log, 0),
        opposite: point_at(log, 2),
        vertices: Seq::new(log[4] as nat, |i: int| point_at(log, 5 + 2 * i)),
        dx: log[5 + 2 * log[4]],
        dy: log[6 + 2 * log[4]],
    }
}

/// The rectangle between the two corners that a log begins with.
pub open spec fn rectangle_in(parameters: GeoRandParameters<i32>, log: Seq<int>) -> GeoRandParameters<
    i32,
> {
    parameters.sub_rectangle_of(point_at(log, 0), point_at(log, 2))
}

/// How many numbers the generation of one polygon draws, where `log` begins
/// with them: none where the parameters are at fault, 5 where the two
/// corners share an `x` or a `y`, and else 7 and 2 for each point.
pub open spec fn run_length(parameters: GeoRandParameters<i32>, log: Seq<int>) -> int {
    if parameters.fault() is Some {
        0
    } else if !rectangle_in(parameters, log).has_region() {
        5
    } else {
        7 + 2 * log[4]
    }
}

/// The bounds that the generation of one polygon draws its numbers between,
/// where `log` begins with the numbers: none where the parameters are at
/// fault; else those of a point of the region, twice, for the two corners,
/// and 3 and `max_polygon_vertices_count` for the number of points; and,
/// where the rectangle between the corners has points to draw, those of a
/// point of the rectangle for each point, and those of the offsets.
pub open spec fn bounds_of_run(parameters: GeoRandParameters<i32>, log: Seq<int>) -> Seq<(int, int)> {
    if parameters.fault() is Some {
        Seq::empty()
    } else {
        let inner = rectangle_in(parameters, log);
        let head = bounds_of_point(parameters) + bounds_of_point(parameters) + seq![
            (3int, parameters.max_polygon_vertices_count as int),
        ];
        if inner.has_region() {
            head + bounds_of_points(inner, log[4] as nat) + bounds_of_offsets(parameters, inner)
        } else {
            head
        }
    }
}

/// What the generation of one polygon makes of the numbers it drew: the
/// fault of the parameters where they have one; a failure where the two
/// corners share an `x` or a `y`, so that the rectangle between them has no
/// point to draw; and else the ring of the draws.
pub open spec fn polygon_outcome(parameters: GeoRandParameters<i32>, log: Seq<int>) -> Result<
    Seq<Point>,
    GeoRandError,
> {
    match parameters.fault() {
        Some(error) => Err(error),
        None => if rectangle_in(parameters, log).has_region() {
            Ok(draws_in(log).ring())
        } else {
            Err(GeoRandError::EmptyCoordinateRange)
        },
    }
}

/// `log` is what the generation of one polygon can draw: nothing where the
/// parameters are at fault; else two corners in the region and a number of
/// points from 3 up to, but without, `max_polygon_vertices_count`, and
/// nothing more where the corners share an `x` or a `y`; else the points and
/// the offsets as well, all of them admissible.
pub open spec fn is_polygon_run(parameters: GeoRandParameters<i32>, log: Seq<int>) -> bool {
    match parameters.fault() {
        Some(_) => log.len() == 0,
        None => {
            &&& log.len() >= 5
            &&& parameters.min_x <= log[0] < parameters.max_x
            &&& parameters.min_y <= log[1] < parameters.max_y
            &&& parameters.min_x <= log[2] < parameters.max_x
            &&& parameters.min_y <= log[3] < parameters.max_y
            &&& 3 <= log[4] < parameters.max_polygon_vertices_count
            &&& if rectangle_in(parameters, log).has_region() {
                &&& log == draws_in(log).log()
                &&& draws_in(log).admissible(parameters)
            } else {
                log.len() == 5
            }
        },
    }
}

/// The coordinates of the points with one more point are the coordinates of
/// the points, and the `x` and the `y` of that point.
pub(crate) proof fn lemma_coordinates_push(points: Seq<Point>, p: Point)
    ensures
        coordinates(points.push(p)) == coordinates(points).push(p.x as int).push(p.y as int),
{
    let longer = coordinates(points.push(p));
    let pushed = coordinates(points).push(p.x as int).push(p.y as int);
    assert(longer.len() == pushed.len());
    assert forall|k: int| 0 <= k < longer.len() implies longer[k] == pushed[k] by {
        if k < 2 * points.len() {
            assert(k / 2 < points.len());
            assert(points.push(p)[k / 2] == points[k / 2]);
        } else {
            assert(k / 2 == points.len());
        }
    }
    assert(longer =~= pushed);
}

/// The bounds of the points with one more point are the bounds of the
/// points, and those of one point.
pub(crate) proof fn lemma_bounds_of_points_push(parameters: GeoRandParameters<i32>, count: nat)
    ensures
        bounds_of_points(parameters, count + 1) == bounds_of_points(parameters, count)
            + bounds_of_point(parameters),
{
    assert(bounds_of_points(parameters, count + 1) =~= bounds_of_points(parameters, count)
        + bounds_of_point(parameters));
}

/// Draws are read back from their log as they were.
pub proof fn lemma_draws_in_log(draws: PolygonDraws)
    ensures
        draws.log().len() == 7 + 2 * draws.vertices.len(),
        draws_in(draws.log()) == draws,
{
    let log = draws.log();
    let read = draws_in(log);
    let n = draws.vertices.len() as int;
    assert(log[4] == n);
    assert forall|i: int| 0 <= i < n implies read.vertices[i] == draws.vertices[i] by {
        assert(log[5 + 2 * i] == coordinates(draws.vertices)[2 * i]);
        assert(log[5 + 2 * i + 1] == coordinates(draws.vertices)[2 * i + 1]);
        assert((2 * i) / 2 == i && (2 * i) % 2 == 0);
        assert((2 * i + 1) / 2 == i && (2 * i + 1) % 2 == 1);
    }
    assert(read.vertices =~= draws.vertices);
    assert(log[5 + 2 * n] == draws.dx);
    assert(log[6 + 2 * n] == draws.dy);
    assert(read =~= draws);
}

/// A ring that is moved keeps its length, and a closed ring stays closed.
proof fn lemma_moved_ring_closed(ring: Seq<Point>, dx: int, dy: int)
    requires
        is_closed_ring(ring),
    ensures
        is_closed_ring(moved_ring(ring, dx, dy)),
        moved_ring(ring, dx, dy).len() == ring.len(),
{
}

/// The ring made of admissible draws lies in the region, its upper bounds
/// left out: every point of it is a drawn point moved by offsets that keep
/// the rectangle of the draws inside the region. The ring is closed and has
/// at least 3 points and at most one more than were drawn, so at most
/// `max_polygon_vertices_count`, the closing one counted.
pub proof fn lemma_drawn_ring(draws: PolygonDraws, parameters: GeoRandParameters<i32>)
    requires
        draws.admissible(parameters),
    ensures
        can_move_ring(draws.vertices, draws.dx, draws.dy),
        can_move_ring(contour_of(draws.vertices), draws.dx, draws.dy),
        forall|k: int| 0 <= k < draws.ring().len() ==> parameters.holds(#[trigger] draws.ring()[k]),
        is_closed_ring(draws.ring()),
        3 <= draws.ring().len() <= draws.vertices.len() + 1,
        draws.ring().len() <= parameters.max_polygon_vertices_count,
{
    let inner = parameters.sub_rectangle_of(draws.corner, draws.opposite);
    let contour = contour_of(draws.vertices);
    lemma_contour_shape(draws.vertices);
    assert forall|k: int| 0 <= k < contour.len() implies inner.holds(#[trigger] contour[k]) by {
        lemma_contour_points_are_given(draws.vertices, k);
        let i = choose|i: int| 0 <= i < draws.vertices.len() && draws.vertices[i] == contour[k];
        assert(inner.holds(draws.vertices[i]));
    }
    assert(is_closed_ring(contour));
    lemma_moved_ring_closed(contour, draws.dx, draws.dy);
    assert forall|k: int| 0 <= k < draws.ring().len() implies parameters.holds(
        #[trigger] draws.ring()[k],
    ) by {
        assert(inner.holds(contour[k]));
    }
    assert forall|i: int| 0 <= i < draws.vertices.len() implies {
        &&& i32::MIN <= (#[trigger] draws.vertices[i]).x + draws.dx <= i32::MAX
        &&& i32::MIN <= draws.vertices[i].y + draws.dy <= i32::MAX
    } by {
        assert(inner.holds(draws.vertices[i]));
    }
}

/// A log that the generation of one polygon can draw has the length that
/// its first numbers give it. Where it is made into a polygon, the ring is
/// closed, has at least 3 points and at most `max_polygon_vertices_count`,
/// and lies in the region.
pub proof fn lemma_polygon_run(parameters: GeoRandParameters<i32>, log: Seq<int>)
    requires
        is_polygon_run(parameters, log),
    ensures
        log.len() == run_length(parameters, log),
        polygon_outcome(parameters, log) matches Ok(ring) ==> {
            &&& is_closed_ring(ring)
            &&& 3 <= ring.len() <= parameters.max_polygon_vertices_count
            &&& forall|k: int| 0 <= k < ring.len() ==> parameters.holds(#[trigger] ring[k])
        },
        polygon_outcome(parameters, log) is Ok ==> !parameters.is_thin(),
{
    if parameters.fault() is None && rectangle_in(parameters, log).has_region() {
        let draws = draws_in(log);
        lemma_draws_in_log(draws);
        lemma_drawn_ring(draws, parameters);
    }
}

/// What the generation of one polygon draws settles where it ends: no log
/// of such a generation is the beginning of a longer one.
pub proof fn lemma_polygon_run_ends(parameters: GeoRandParameters<i32>, run: Seq<int>, rest: Seq<int>)
    requires
        is_polygon_run(parameters, run),
        is_polygon_run(parameters, run + rest),
    ensures
        rest.len() == 0,
{
    lemma_polygon_run(parameters, run);
    lemma_polygon_run(parameters, run + rest);
    lemma_run_at_head(parameters, run, rest);
}

/// What the generation of a set of polygons makes of the numbers it drew,
/// starting from `tally`; `None` where `log` is no log of such a generation.
///
/// An accumulation that is over draws nothing and stays as it is. Else the
/// log begins with what the generation of one polygon draws: where that
/// fails, so does the whole, and nothing more is drawn; where it gives a
/// polygon, the polygon is offered, and the generation goes on with the rest
/// of the log.
pub open spec fn fill_outcome(parameters: GeoRandParameters<i32>, tally: Tally, log: Seq<int>) -> Option<
    Result<Tally, GeoRandError>,
>
    decreases log.len(),
{
    if tally.phase(parameters) != Phase::Accumulating {
        if log.len() == 0 {
            Some(Ok(tally))
        } else {
            None
        }
    } else {
        let n = run_length(parameters, log);
        if n < 0 || n > log.len() || !is_polygon_run(parameters, log.take(n)) {
            None
        } else {
            match polygon_outcome(parameters, log.take(n)) {
                Err(error) => if log.len() == n {
                    Some(Err(error))
                } else {
                    None
                },
                Ok(ring) => if n > 0 {
                    fill_outcome(parameters, tally.offer(ring, parameters), log.skip(n))
                } else {
                    None
                },
            }
        }
    }
}

/// The bounds that the generation of a set of polygons draws its numbers
/// between, starting from `tally`, where `log` holds the numbers: those of
/// the generation of one polygon, run after run, as long as the accumulation
/// goes on and no run fails.
pub open spec fn bounds_of_fill(parameters: GeoRandParameters<i32>, tally: Tally, log: Seq<int>) -> Seq<
    (int, int),
>
    decreases log.len(),
{
    if tally.phase(parameters) != Phase::Accumulating {
        Seq::empty()
    } else {
        let n = run_length(parameters, log);
        if n < 0 || n > log.len() || !is_polygon_run(parameters, log.take(n)) {
            Seq::empty()
        } else {
            match polygon_outcome(parameters, log.take(n)) {
                Err(_) => bounds_of_run(parameters, log.take(n)),
                Ok(ring) => if n > 0 {
                    bounds_of_run(parameters, log.take(n)) + bounds_of_fill(
                        parameters,
                        tally.offer(ring, parameters),
                        log.skip(n),
                    )
                } else {
                    Seq::empty()
                },
            }
        }
    }
}

/// The generation of a set that has drawn `consumed` between the bounds
/// `asked` and holds `tally` goes on asking as one that starts from `tally`.
pub open spec fn asks_on_from(
    parameters: GeoRandParameters<i32>,
    consumed: Seq<int>,
    asked: Seq<(int, int)>,
    tally: Tally,
) -> bool {
    forall|rest: Seq<int>| #[trigger]
        bounds_of_fill(parameters, Tally::empty(), consumed + rest) == asked + bounds_of_fill(
            parameters,
            tally,
            rest,
        )
}

/// The generation of a set that has drawn `consumed` and holds `tally` goes
/// on as one that starts from `tally`: whatever is drawn after `consumed`,
/// the outcome of the whole log is the outcome of what is drawn from `tally`
/// on.
pub open spec fn goes_on_from(parameters: GeoRandParameters<i32>, consumed: Seq<int>, tally: Tally) -> bool {
    forall|rest: Seq<int>| #[trigger]
        fill_outcome(parameters, Tally::empty(), consumed + rest) == fill_outcome(
            parameters,
            tally,
            rest,
        )
}

/// What the generation of one polygon reads at the head of a log does not
/// depend on what follows it.
pub(crate) proof fn lemma_run_at_head(parameters: GeoRandParameters<i32>, run: Seq<int>, rest: Seq<int>)
    requires
        is_polygon_run(parameters, run),
    ensures
        run_length(parameters, run + rest) == run.len(),
        (run + rest).take(run.len() as int) == run,
        (run + rest).skip(run.len() as int) == rest,
{
    lemma_polygon_run(parameters, run);
    let whole = run + rest;
    if parameters.fault() is None {
        assert(whole[0] == run[0] && whole[1] == run[1] && whole[2] == run[2] && whole[3] == run[3]
            && whole[4] == run[4]);
        assert(point_at(whole, 0) == point_at(run, 0));
        assert(point_at(whole, 2) == point_at(run, 2));
    }
    assert(whole.take(run.len() as int) =~= run);
    assert(whole.skip(run.len() as int) =~= rest);
}

/// Once a polygon was generated and offered, the generation goes on from
/// the accumulation as it then stands.
pub(crate) proof fn lemma_goes_on(
    parameters: GeoRandParameters<i32>,
    consumed: Seq<int>,
    tally: Tally,
    run: Seq<int>,
)
    requires
        goes_on_from(parameters, consumed, tally),
        tally.phase(parameters) == Phase::Accumulating,
        is_polygon_run(parameters, run),
    ensures
        polygon_outcome(parameters, run) matches Ok(ring) ==> goes_on_from(
            parameters,
            consumed + run,
            tally.offer(ring, parameters),
        ),
        polygon_outcome(parameters, run) matches Err(error) ==> fill_outcome(
            parameters,
            Tally::empty(),
            consumed + run,
        ) == Some(Err::<Tally, GeoRandError>(error)),
{
    lemma_polygon_run(parameters, run);
    match polygon_outcome(parameters, run) {
        Ok(ring) => {
            assert forall|rest: Seq<int>| #[trigger]
                fill_outcome(parameters, Tally::empty(), (consumed + run) + rest) == fill_outcome(
                    parameters,
                    tally.offer(ring, parameters),
                    rest,
                ) by {
                lemma_run_at_head(parameters, run, rest);
                assert((consumed + run) + rest =~= consumed + (run + rest));
                assert(fill_outcome(parameters, Tally::empty(), consumed + (run + rest))
                    == fill_outcome(parameters, tally, run + rest));
            }
        },
        Err(error) => {
            let none = Seq::<int>::empty();
            lemma_run_at_head(parameters, run, none);
            assert(run + none =~= run);
            assert(fill_outcome(parameters, Tally::empty(), consumed + run) == fill_outcome(
                parameters,
                tally,
                run,
            ));
        },
    }
}

/// Once a polygon was generated and offered, the generation goes on asking
/// from the accumulation as it then stands.
pub(crate) proof fn lemma_asks_on(
    parameters: GeoRandParameters<i32>,
    consumed: Seq<int>,
    asked: Seq<(int, int)>,
    tally: Tally,
    run: Seq<int>,
)
    requires
        asks_on_from(parameters, consumed, asked, tally),
        tally.phase(parameters) == Phase::Accumulating,
        is_polygon_run(parameters, run),
    ensures
        polygon_outcome(parameters, run) matches Ok(ring) ==> asks_on_from(
            parameters,
            consumed + run,
            asked + bounds_of_run(parameters, run),
            tally.offer(ring, parameters),
        ),
        polygon_outcome(parameters, run) is Err ==> bounds_of_fill(
            parameters,
            Tally::empty(),
            consumed + run,
        ) == asked + bounds_of_run(parameters, run),
{
    lemma_polygon_run(parameters, run);
    match polygon_outcome(parameters, run) {
        Ok(ring) => {
            assert forall|rest: Seq<int>| #[trigger]
                bounds_of_fill(parameters, Tally::empty(), (consumed + run) + rest) == (asked
                    + bounds_of_run(parameters, run)) + bounds_of_fill(
                    parameters,
                    tally.offer(ring, parameters),
                    rest,
                ) by {
                lemma_run_at_head(parameters, run, rest);
                assert((consumed + run) + rest =~= consumed + (run + rest));
                assert(bounds_of_fill(parameters, Tally::empty(), consumed + (run + rest)) == asked
                    + bounds_of_fill(parameters, tally, run + rest));
                assert(asked + (bounds_of_run(parameters, run) + bounds_of_fill(
                    parameters,
                    tally.offer(ring, parameters),
                    rest,
                )) =~= (asked + bounds_of_run(parameters, run)) + bounds_of_fill(
                    parameters,
                    tally.offer(ring, parameters),
                    rest,
                ));
            }
        },
        Err(_) => {
            let none = Seq::<int>::empty();
            lemma_run_at_head(parameters, run, none);
            assert(run + none =~= run);
            assert(bounds_of_fill(parameters, Tally::empty(), consumed + run) == asked
                + bounds_of_fill(parameters, tally, run));
        },
    }
}

/// What the generation of a set draws settles where it ends: no log of such
/// a generation is the beginning of a longer one. So two generations with
/// the same parameters that are handed the same numbers draw equally many of
/// them, and have the same outcome.
pub proof fn lemma_fill_ends(
    parameters: GeoRandParameters<i32>,
    tally: Tally,
    log: Seq<int>,
    rest: Seq<int>,
)
    requires
        fill_outcome(parameters, tally, log) is Some,
        fill_outcome(parameters, tally, log + rest) is Some,
    ensures
        rest.len() == 0,
    decreases log.len(),
{
    if tally.phase(parameters) == Phase::Accumulating {
        let n = run_length(parameters, log);
        let run = log.take(n);
        let after = log.skip(n);
        assert(log =~= run + after);
        assert(log + rest =~= run + (after + rest));
        lemma_run_at_head(parameters, run, after);
        lemma_run_at_head(parameters, run, after + rest);
        match polygon_outcome(parameters, run) {
            Ok(ring) => {
                lemma_fill_ends(parameters, tally.offer(ring, parameters), after, rest);
            },
            Err(_) => {
                assert(after.len() == 0);
            },
        }
    }
}

} // verus!
