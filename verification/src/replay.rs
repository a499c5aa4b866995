//! Generations from sources that answer alike draw alike.
//!
//! Nothing is known here of how the random source finds its numbers. What
//! can be said is this: if a source answers by a rule, each number settled by
//! the bounds it is asked between and by all that was asked and answered
//! before, then a generation is settled by the parameters and by the rule.
//! Two generations with the same parameters, from sources that stand alike
//! and follow the same rule, draw the same numbers, and so give the same
//! shapes.

use vstd::prelude::*;
use crate::accumulate::{Phase, Tally};
use crate::draws::{
    bounds_of_fill, bounds_of_point, bounds_of_run, fill_outcome, is_polygon_run, point_at,
    polygon_outcome, rectangle_in, run_length, lemma_polygon_run,
};
use crate::geometry::Point;
use crate::parameters::GeoRandParameters;

verus! {

/// The numbers `drawn` are the answers that `rule` gives: each is what the
/// rule makes of the bounds asked, of the bounds asked before, and of the
/// numbers drawn before.
pub open spec fn answers_by(
    rule: spec_fn(Seq<(int, int)>, Seq<int>, (int, int)) -> int,
    asked: Seq<(int, int)>,
    drawn: Seq<int>,
) -> bool {
    &&& asked.len() == drawn.len()
    &&& forall|i: int|
        0 <= i < drawn.len() ==> #[trigger] drawn[i] == rule(asked.take(i), drawn.take(i), asked[i])
}

/// A number drawn behind a history is the rule's answer to its bounds,
/// behind that history and what was asked and drawn since.
proof fn lemma_answer_at(
    rule: spec_fn(Seq<(int, int)>, Seq<int>, (int, int)) -> int,
    asked_before: Seq<(int, int)>,
    drawn_before: Seq<int>,
    asked: Seq<(int, int)>,
    drawn: Seq<int>,
    k: int,
)
    requires
        answers_by(rule, asked_before + asked, drawn_before + drawn),
        asked.len() == drawn.len(),
        0 <= k < drawn.len(),
    ensures
        drawn[k] == rule(asked_before + asked.take(k), drawn_before + drawn.take(k), asked[k]),
{
    let i = drawn_before.len() + k;
    assert(asked_before.len() == drawn_before.len());
    assert((drawn_before + drawn)[i] == drawn[k]);
    assert((asked_before + asked)[i] == asked[k]);
    assert((asked_before + asked).take(i) =~= asked_before + asked.take(k));
    assert((drawn_before + drawn).take(i) =~= drawn_before + drawn.take(k));
}

/// Two logs behind one history, answered by one rule, agree as far as the
/// bounds asked agree.
proof fn lemma_same_answers_so_far(
    rule: spec_fn(Seq<(int, int)>, Seq<int>, (int, int)) -> int,
    asked_before: Seq<(int, int)>,
    drawn_before: Seq<int>,
    first_asked: Seq<(int, int)>,
    second_asked: Seq<(int, int)>,
    first: Seq<int>,
    second: Seq<int>,
    k: int,
)
    requires
        answers_by(rule, asked_before + first_asked, drawn_before + first),
        answers_by(rule, asked_before + second_asked, drawn_before + second),
        first_asked.len() == first.len(),
        second_asked.len() == second.len(),
        0 <= k <= first.len(),
        k <= second.len(),
        first_asked.take(k) == second_asked.take(k),
    ensures
        first.take(k) == second.take(k),
    decreases k,
{
    if k == 0 {
        assert(first.take(0) =~= second.take(0));
    } else {
        assert(first_asked.take(k - 1) =~= first_asked.take(k).take(k - 1));
        assert(second_asked.take(k - 1) =~= second_asked.take(k).take(k - 1));
        lemma_same_answers_so_far(
            rule,
            asked_before,
            drawn_before,
            first_asked,
            second_asked,
            first,
            second,
            k - 1,
        );
        lemma_answer_at(rule, asked_before, drawn_before, first_asked, first, k - 1);
        lemma_answer_at(rule, asked_before, drawn_before, second_asked, second, k - 1);
        assert(first_asked[k - 1] == first_asked.take(k)[k - 1]);
        assert(second_asked[k - 1] == second_asked.take(k)[k - 1]);
        assert(first.take(k) =~= first.take(k - 1).push(first[k - 1]));
        assert(second.take(k) =~= second.take(k - 1).push(second[k - 1]));
    }
}

/// Two generations of a point with the same parameters, from sources that
/// stand alike and answer by the same rule, give the same point.
pub proof fn lemma_same_answers_same_point(
    parameters: GeoRandParameters<i32>,
    rule: spec_fn(Seq<(int, int)>, Seq<int>, (int, int)) -> int,
    asked_before: Seq<(int, int)>,
    drawn_before: Seq<int>,
    first: Point,
    second: Point,
)
    requires
        answers_by(
            rule,
            asked_before + bounds_of_point(parameters),
            drawn_before.push(first.x as int).push(first.y as int),
        ),
        answers_by(
            rule,
            asked_before + bounds_of_point(parameters),
            drawn_before.push(second.x as int).push(second.y as int),
        ),
    ensures
        first == second,
{
    let asked = bounds_of_point(parameters);
    let first_drawn = seq![first.x as int, first.y as int];
    let second_drawn = seq![second.x as int, second.y as int];
    assert(drawn_before.push(first.x as int).push(first.y as int) =~= drawn_before + first_drawn);
    assert(drawn_before.push(second.x as int).push(second.y as int) =~= drawn_before
        + second_drawn);
    lemma_same_answers_so_far(
        rule,
        asked_before,
        drawn_before,
        asked,
        asked,
        first_drawn,
        second_drawn,
        2,
    );
    assert(first_drawn.take(2)[0] == first.x && first_drawn.take(2)[1] == first.y);
    assert(second_drawn.take(2)[0] == second.x && second_drawn.take(2)[1] == second.y);
}

/// The generation of one polygon asks for as many numbers as it draws.
pub proof fn lemma_run_asks_each(parameters: GeoRandParameters<i32>, run: Seq<int>)
    requires
        is_polygon_run(parameters, run),
    ensures
        bounds_of_run(parameters, run).len() == run.len(),
{
    lemma_polygon_run(parameters, run);
}

/// The generation of a set asks for as many numbers as it draws.
pub proof fn lemma_fill_asks_each(parameters: GeoRandParameters<i32>, tally: Tally, log: Seq<int>)
    requires
        fill_outcome(parameters, tally, log) is Some,
    ensures
        bounds_of_fill(parameters, tally, log).len() == log.len(),
    decreases log.len(),
{
    if tally.phase(parameters) == Phase::Accumulating {
        let n = run_length(parameters, log);
        lemma_run_asks_each(parameters, log.take(n));
        match polygon_outcome(parameters, log.take(n)) {
            Ok(ring) => {
                lemma_fill_asks_each(parameters, tally.offer(ring, parameters), log.skip(n));
            },
            Err(_) => {},
        }
    }
}

/// Two generations of a polygon with the same parameters, from sources that
/// stand alike and answer by the same rule, draw the same numbers. Their
/// outcome is `polygon_outcome` of the parameters and of these numbers, so
/// they fail alike or give the same polygon.
pub proof fn lemma_same_answers_same_run(
    parameters: GeoRandParameters<i32>,
    rule: spec_fn(Seq<(int, int)>, Seq<int>, (int, int)) -> int,
    asked_before: Seq<(int, int)>,
    drawn_before: Seq<int>,
    first: Seq<int>,
    second: Seq<int>,
)
    requires
        is_polygon_run(parameters, first),
        is_polygon_run(parameters, second),
        answers_by(rule, asked_before + bounds_of_run(parameters, first), drawn_before + first),
        answers_by(rule, asked_before + bounds_of_run(parameters, second), drawn_before + second),
    ensures
        first == second,
{
    let first_asked = bounds_of_run(parameters, first);
    let second_asked = bounds_of_run(parameters, second);
    lemma_run_asks_each(parameters, first);
    lemma_run_asks_each(parameters, second);
    if parameters.fault() is Some {
        assert(first =~= second);
    } else {
        let head = bounds_of_point(parameters) + bounds_of_point(parameters) + seq![
            (3int, parameters.max_polygon_vertices_count as int),
        ];
        assert(first_asked.take(5) =~= head);
        assert(second_asked.take(5) =~= head);
        lemma_same_answers_so_far(
            rule,
            asked_before,
            drawn_before,
            first_asked,
            second_asked,
            first,
            second,
            5,
        );
        assert forall|i: int| 0 <= i < 5 implies first[i] == second[i] by {
            assert(first[i] == first.take(5)[i]);
            assert(second[i] == second.take(5)[i]);
        }
        assert(point_at(first, 0) == point_at(second, 0));
        assert(point_at(first, 2) == point_at(second, 2));
        assert(rectangle_in(parameters, first) == rectangle_in(parameters, second));
        assert(first_asked == second_asked);
        assert(first.len() == second.len());
        assert(first_asked.take(first.len() as int) == second_asked.take(first.len() as int));
        lemma_same_answers_so_far(
            rule,
            asked_before,
            drawn_before,
            first_asked,
            second_asked,
            first,
            second,
            first.len() as int,
        );
        assert(first.take(first.len() as int) =~= first);
        assert(second.take(second.len() as int) =~= second);
    }
}

/// Answers by a rule are answers by the rule as far as one reads them.
proof fn lemma_answers_so_far(
    rule: spec_fn(Seq<(int, int)>, Seq<int>, (int, int)) -> int,
    asked: Seq<(int, int)>,
    asked_later: Seq<(int, int)>,
    drawn: Seq<int>,
    drawn_later: Seq<int>,
)
    requires
        answers_by(rule, asked + asked_later, drawn + drawn_later),
        asked.len() == drawn.len(),
    ensures
        answers_by(rule, asked, drawn),
{
    assert forall|i: int| 0 <= i < drawn.len() implies #[trigger] drawn[i] == rule(
        asked.take(i),
        drawn.take(i),
        asked[i],
    ) by {
        assert((drawn + drawn_later)[i] == drawn[i]);
        assert((asked + asked_later)[i] == asked[i]);
        assert((asked + asked_later).take(i) =~= asked.take(i));
        assert((drawn + drawn_later).take(i) =~= drawn.take(i));
    }
}

/// Two generations of a set with the same parameters, from sources that
/// stand alike and answer by the same rule, draw the same numbers. Their
/// outcome is `fill_outcome` of the parameters and of these numbers, so they
/// fail alike or accept the same polygons in the same order.
pub proof fn lemma_same_answers_same_fill(
    parameters: GeoRandParameters<i32>,
    rule: spec_fn(Seq<(int, int)>, Seq<int>, (int, int)) -> int,
    asked_before: Seq<(int, int)>,
    drawn_before: Seq<int>,
    tally: Tally,
    first: Seq<int>,
    second: Seq<int>,
)
    requires
        fill_outcome(parameters, tally, first) is Some,
        fill_outcome(parameters, tally, second) is Some,
        answers_by(
            rule,
            asked_before + bounds_of_fill(parameters, tally, first),
            drawn_before + first,
        ),
        answers_by(
            rule,
            asked_before + bounds_of_fill(parameters, tally, second),
            drawn_before + second,
        ),
    ensures
        first == second,
    decreases first.len(),
{
    lemma_fill_asks_each(parameters, tally, first);
    lemma_fill_asks_each(parameters, tally, second);
    if tally.phase(parameters) != Phase::Accumulating {
        assert(first =~= second);
    } else {
        let first_run = first.take(run_length(parameters, first));
        let second_run = second.take(run_length(parameters, second));
        let first_rest = first.skip(run_length(parameters, first));
        let second_rest = second.skip(run_length(parameters, second));
        let first_asked = bounds_of_run(parameters, first_run);
        let second_asked = bounds_of_run(parameters, second_run);
        assert(first =~= first_run + first_rest);
        assert(second =~= second_run + second_rest);
        lemma_run_asks_each(parameters, first_run);
        lemma_run_asks_each(parameters, second_run);
        let first_later = match polygon_outcome(parameters, first_run) {
            Ok(ring) => bounds_of_fill(parameters, tally.offer(ring, parameters), first_rest),
            Err(_) => Seq::empty(),
        };
        let second_later = match polygon_outcome(parameters, second_run) {
            Ok(ring) => bounds_of_fill(parameters, tally.offer(ring, parameters), second_rest),
            Err(_) => Seq::empty(),
        };
        assert(bounds_of_fill(parameters, tally, first) =~= first_asked + first_later);
        assert(bounds_of_fill(parameters, tally, second) =~= second_asked + second_later);
        assert(asked_before + (first_asked + first_later) =~= (asked_before + first_asked)
            + first_later);
        assert(asked_before + (second_asked + second_later) =~= (asked_before + second_asked)
            + second_later);
        assert(drawn_before + (first_run + first_rest) =~= (drawn_before + first_run) + first_rest);
        assert(drawn_before + (second_run + second_rest) =~= (drawn_before + second_run)
            + second_rest);
        lemma_answers_so_far(
            rule,
            asked_before + first_asked,
            first_later,
            drawn_before + first_run,
            first_rest,
        );
        lemma_answers_so_far(
            rule,
            asked_before + second_asked,
            second_later,
            drawn_before + second_run,
            second_rest,
        );
        lemma_same_answers_same_run(
            parameters,
            rule,
            asked_before,
            drawn_before,
            first_run,
            second_run,
        );
        match polygon_outcome(parameters, first_run) {
            Ok(ring) => {
                lemma_same_answers_same_fill(
                    parameters,
                    rule,
                    asked_before + first_asked,
                    drawn_before + first_run,
                    tally.offer(ring, parameters),
                    first_rest,
                    second_rest,
                );
            },
            Err(_) => {
                assert(first_rest.len() == 0 && second_rest.len() == 0);
                assert(first_rest =~= second_rest);
            },
        }
    }
}

} // verus!
