//! The two-chain contour: a closed ring through a set of points, made of an
//! upper chain from the leftmost point to the rightmost one and a lower chain
//! back.
//!
//! The ring is not a convex hull, and it need not be simple: the chains are
//! ordered by `x` alone, so points that share an `x` are joined in the order
//! in which they were given, whatever their `y`, and the ring may run back
//! over itself there.

use vstd::prelude::*;
use crate::chain::{sort_by_x, stable_sort_by_x, lemma_stable_sort_by_x, lemma_stable_sort_same_points};
use crate::geometry::Point;

verus! {

/// `i` is the first index of a point with the smallest `x`.
pub open spec fn is_leftmost_index(points: Seq<Point>, i: int) -> bool {
    &&& 0 <= i < points.len()
    &&& forall|j: int| 0 <= j < i ==> points[i].x < (#[trigger] points[j]).x
    &&& forall|j: int| i < j < points.len() ==> points[i].x <= (#[trigger] points[j]).x
}

/// `i` is the last index of a point with the largest `x`.
pub open spec fn is_rightmost_index(points: Seq<Point>, i: int) -> bool {
    &&& 0 <= i < points.len()
    &&& forall|j: int| 0 <= j < i ==> (#[trigger] points[j]).x <= points[i].x
    &&& forall|j: int| i < j < points.len() ==> (#[trigger] points[j]).x < points[i].x
}

/// The first index of a point with the smallest `x`.
pub open spec fn leftmost_index(points: Seq<Point>) -> int {
    choose|i: int| is_leftmost_index(points, i)
}

/// The last index of a point with the largest `x`.
pub open spec fn rightmost_index(points: Seq<Point>) -> int {
    choose|i: int| is_rightmost_index(points, i)
}

/// The leftmost point: among the points with the smallest `x`, the first.
pub open spec fn leftmost(points: Seq<Point>) -> Point {
    points[leftmost_index(points)]
}

/// The rightmost point: among the points with the largest `x`, the last.
pub open spec fn rightmost(points: Seq<Point>) -> Point {
    points[rightmost_index(points)]
}

/// The cross product of the vectors from `origin` to `toward` and from
/// `origin` to `p`.
pub open spec fn cross(origin: Point, toward: Point, p: Point) -> int {
    (toward.x - origin.x) * (p.y - origin.y) - (toward.y - origin.y) * (p.x - origin.x)
}

/// Going from `origin` to `toward`, `p` lies to the left or straight ahead.
pub open spec fn turns_left(origin: Point, toward: Point, p: Point) -> bool {
    cross(origin, toward, p) >= 0
}

/// The predicate "is one of the two ends".
pub open spec fn is_end(left: Point, right: Point) -> spec_fn(Point) -> bool {
    |p: Point| p == left || p == right
}

/// The predicate "belongs to the upper chain": neither end, and to the left
/// of the way from `left` to `right`, or on it.
pub open spec fn in_upper_chain(left: Point, right: Point) -> spec_fn(Point) -> bool {
    |p: Point| p != left && p != right && turns_left(left, right, p)
}

/// The predicate "belongs to the lower chain": neither end, and to the right
/// of the way from `left` to `right`.
pub open spec fn in_lower_chain(left: Point, right: Point) -> spec_fn(Point) -> bool {
    |p: Point| p != left && p != right && !turns_left(left, right, p)
}

/// The points of the upper chain, in the order of the ring.
pub open spec fn upper_chain(points: Seq<Point>) -> Seq<Point> {
    stable_sort_by_x(points.filter(in_upper_chain(leftmost(points), rightmost(points))), false)
}

/// The points of the lower chain, in the order of the ring.
pub open spec fn lower_chain(points: Seq<Point>) -> Seq<Point> {
    stable_sort_by_x(points.filter(in_lower_chain(leftmost(points), rightmost(points))), true)
}

/// How many of the points are equal to the leftmost or to the rightmost one.
/// Every such point is left out of both chains.
pub open spec fn end_copies(points: Seq<Point>) -> nat {
    points.filter(is_end(leftmost(points), rightmost(points))).len()
}

/// The contour of a non-empty sequence of points: the leftmost point, the
/// upper chain by ascending `x`, the rightmost point, the lower chain by
/// descending `x`, and the leftmost point again.
pub open spec fn contour_of(points: Seq<Point>) -> Seq<Point> {
    seq![leftmost(points)] + upper_chain(points) + seq![rightmost(points)] + lower_chain(points)
        + seq![leftmost(points)]
}

/// An index that `is_leftmost_index` accepts is the leftmost index: there is
/// no other.
pub proof fn lemma_leftmost_index(points: Seq<Point>, i: int)
    requires
        is_leftmost_index(points, i),
    ensures
        leftmost_index(points) == i,
{
    let chosen = leftmost_index(points);
    assert(is_leftmost_index(points, chosen));
    if chosen < i {
        assert(points[i].x < points[chosen].x);
    } else if i < chosen {
        assert(points[chosen].x < points[i].x);
    }
}

/// An index that `is_rightmost_index` accepts is the rightmost index: there
/// is no other.
pub proof fn lemma_rightmost_index(points: Seq<Point>, i: int)
    requires
        is_rightmost_index(points, i),
    ensures
        rightmost_index(points) == i,
{
    let chosen = rightmost_index(points);
    assert(is_rightmost_index(points, chosen));
    if chosen < i {
        assert(points[chosen].x <= points[i].x);
    } else if i < chosen {
        assert(points[i].x <= points[chosen].x);
    }
}

/// Every non-empty sequence has a leftmost index.
proof fn lemma_leftmost_exists(points: Seq<Point>) -> (i: int)
    requires
        points.len() > 0,
    ensures
        is_leftmost_index(points, i),
    decreases points.len(),
{
    if points.len() == 1 {
        0
    } else {
        let rest = points.drop_last();
        let before = lemma_leftmost_exists(rest);
        assert forall|j: int| 0 <= j < rest.len() implies rest[j] == #[trigger] points[j] by {}
        if points.last().x < rest[before].x {
            let i = points.len() - 1;
            assert forall|j: int| 0 <= j < i implies points[i].x < (#[trigger] points[j]).x by {
                assert(rest[before].x <= rest[j].x);
            }
            i
        } else {
            assert forall|j: int| 0 <= j < before implies points[before].x < (
            #[trigger] points[j]).x by {
                assert(rest[before].x < rest[j].x);
            }
            assert forall|j: int| before < j < points.len() implies points[before].x <= (
            #[trigger] points[j]).x by {
                if j < rest.len() {
                    assert(rest[before].x <= rest[j].x);
                }
            }
            before
        }
    }
}

/// Every non-empty sequence has a rightmost index.
proof fn lemma_rightmost_exists(points: Seq<Point>) -> (i: int)
    requires
        points.len() > 0,
    ensures
        is_rightmost_index(points, i),
    decreases points.len(),
{
    if points.len() == 1 {
        0
    } else {
        let rest = points.drop_last();
        let before = lemma_rightmost_exists(rest);
        assert forall|j: int| 0 <= j < rest.len() implies rest[j] == #[trigger] points[j] by {}
        if points.last().x >= rest[before].x {
            let i = points.len() - 1;
            assert forall|j: int| 0 <= j < i implies (#[trigger] points[j]).x <= points[i].x by {
                assert(rest[j].x <= rest[before].x);
            }
            i
        } else {
            assert forall|j: int| 0 <= j < before implies (#[trigger] points[j]).x
                <= points[before].x by {
                assert(rest[j].x <= rest[before].x);
            }
            assert forall|j: int| before < j < points.len() implies (#[trigger] points[j]).x
                < points[before].x by {
                if j < rest.len() {
                    assert(rest[j].x < rest[before].x);
                }
            }
            before
        }
    }
}

/// The two ends of a non-empty sequence are points of it. No point lies to
/// the left of the leftmost one, and the leftmost one is the first of those
/// with its `x`; no point lies to the right of the rightmost one, and the
/// rightmost one is the last of those with its `x`.
pub proof fn lemma_ends(points: Seq<Point>)
    requires
        points.len() > 0,
    ensures
        is_leftmost_index(points, leftmost_index(points)),
        is_rightmost_index(points, rightmost_index(points)),
        points.contains(leftmost(points)),
        points.contains(rightmost(points)),
        forall|i: int| 0 <= i < points.len() ==> leftmost(points).x <= (#[trigger] points[i]).x,
        forall|i: int| 0 <= i < points.len() ==> (#[trigger] points[i]).x <= rightmost(points).x,
        forall|i: int|
            0 <= i < points.len() && (#[trigger] points[i]).x == leftmost(points).x
                ==> leftmost_index(points) <= i,
        forall|i: int|
            0 <= i < points.len() && (#[trigger] points[i]).x == rightmost(points).x ==> i
                <= rightmost_index(points),
{
    let left_at = lemma_leftmost_exists(points);
    let right_at = lemma_rightmost_exists(points);
    lemma_leftmost_index(points, left_at);
    lemma_rightmost_index(points, right_at);
}

/// Each point is an end, or in the upper chain, or in the lower chain, and
/// in one of the three only.
proof fn lemma_split_lengths(points: Seq<Point>, left: Point, right: Point)
    ensures
        points.filter(is_end(left, right)).len() + points.filter(in_upper_chain(left, right)).len()
            + points.filter(in_lower_chain(left, right)).len() == points.len(),
    decreases points.len(),
{
    if points.len() == 0 {
        points.lemma_filter_len(is_end(left, right));
        points.lemma_filter_len(in_upper_chain(left, right));
        points.lemma_filter_len(in_lower_chain(left, right));
    } else {
        let rest = points.drop_last();
        lemma_split_lengths(rest, left, right);
        assert(rest.push(points.last()) =~= points);
        rest.lemma_filter_push(points.last(), is_end(left, right));
        rest.lemma_filter_push(points.last(), in_upper_chain(left, right));
        rest.lemma_filter_push(points.last(), in_lower_chain(left, right));
    }
}

/// Where a predicate holds of the elements at two places of a sequence, the
/// filter keeps two elements at least.
proof fn lemma_filter_keeps_two(points: Seq<Point>, pred: spec_fn(Point) -> bool, i: int, j: int)
    requires
        0 <= i < j < points.len(),
        pred(points[i]),
        pred(points[j]),
    ensures
        points.filter(pred).len() >= 2,
    decreases points.len(),
{
    let rest = points.drop_last();
    assert(rest.push(points.last()) =~= points);
    rest.lemma_filter_push(points.last(), pred);
    if j == points.len() - 1 {
        assert(rest[i] == points[i]);
        rest.lemma_filter_contains(pred, i);
        assert(rest.filter(pred).len() >= 1);
    } else {
        assert(rest[i] == points[i] && rest[j] == points[j]);
        lemma_filter_keeps_two(rest, pred, i, j);
    }
}

/// Of two or more points, the leftmost and the rightmost stand at different
/// places.
pub proof fn lemma_ends_differ(points: Seq<Point>)
    requires
        points.len() >= 2,
    ensures
        leftmost_index(points) != rightmost_index(points),
{
    lemma_ends(points);
    let left_at = leftmost_index(points);
    let right_at = rightmost_index(points);
    if left_at == right_at {
        if left_at > 0 {
            assert(points[left_at].x < points[0].x);
            assert(points[0].x <= points[right_at].x);
        } else {
            assert(points[1].x < points[right_at].x);
            assert(points[left_at].x <= points[1].x);
        }
    }
}

/// The contour of a non-empty sequence is a closed ring of at least three
/// points. It starts and ends at the leftmost point, reaches the rightmost
/// one behind the upper chain, and holds every point once that is not equal
/// to one of the two ends. Of two or more points two at least are equal to
/// an end, so the ring has at most one point more than were given.
pub proof fn lemma_contour_shape(points: Seq<Point>)
    requires
        points.len() > 0,
    ensures
        contour_of(points).len() == 3 + upper_chain(points).len() + lower_chain(points).len(),
        contour_of(points).len() == points.len() + 3 - end_copies(points),
        1 <= end_copies(points) <= points.len(),
        points.len() >= 2 ==> end_copies(points) >= 2 && contour_of(points).len() <= points.len()
            + 1,
        contour_of(points)[0] == leftmost(points),
        contour_of(points)[contour_of(points).len() - 1] == leftmost(points),
        contour_of(points)[upper_chain(points).len() as int + 1] == rightmost(points),
{
    let left = leftmost(points);
    let right = rightmost(points);
    lemma_stable_sort_by_x(points.filter(in_upper_chain(left, right)), false);
    lemma_stable_sort_by_x(points.filter(in_lower_chain(left, right)), true);
    lemma_split_lengths(points, left, right);
    lemma_ends(points);
    assert(is_end(left, right)(points[leftmost_index(points)]));
    assert(is_end(left, right)(points[rightmost_index(points)]));
    points.lemma_filter_contains(is_end(left, right), leftmost_index(points));
    points.lemma_filter_len(is_end(left, right));
    if points.len() >= 2 {
        lemma_ends_differ(points);
        let left_at = leftmost_index(points);
        let right_at = rightmost_index(points);
        if left_at < right_at {
            lemma_filter_keeps_two(points, is_end(left, right), left_at, right_at);
        } else {
            lemma_filter_keeps_two(points, is_end(left, right), right_at, left_at);
        }
    }
}

/// The contour of `n` points has `n + 1` points, the first of them equal to
/// the last, where the leftmost and the rightmost point differ and no other
/// point is equal to either of them. On all other inputs it is shorter or
/// longer than that: a point equal to an end is left out of both chains,
/// and a single point is both ends.
pub proof fn lemma_contour_length(points: Seq<Point>)
    requires
        points.len() > 0,
        end_copies(points) == 2,
    ensures
        contour_of(points).len() == points.len() + 1,
        contour_of(points)[0] == contour_of(points)[points.len() as int],
{
    lemma_contour_shape(points);
}

/// In a sequence without duplicates, as many points are equal to `a` or to
/// `b` as the sequence holds of the two.
proof fn lemma_count_ends(points: Seq<Point>, a: Point, b: Point)
    requires
        points.no_duplicates(),
        a != b,
    ensures
        points.filter(is_end(a, b)).len() == (if points.contains(a) {
            1int
        } else {
            0int
        }) + (if points.contains(b) {
            1int
        } else {
            0int
        }),
    decreases points.len(),
{
    if points.len() == 0 {
        points.lemma_filter_len(is_end(a, b));
    } else {
        let rest = points.drop_last();
        let last = points.last();
        assert(rest.push(last) =~= points);
        assert forall|i: int, j: int| 0 <= i < j < rest.len() implies rest[i] != rest[j] by {
            assert(rest[i] == points[i] && rest[j] == points[j]);
        }
        lemma_count_ends(rest, a, b);
        rest.lemma_filter_push(last, is_end(a, b));
        assert forall|p: Point| points.contains(p) <==> rest.contains(p) || p == last by {
            if points.contains(p) {
                let i = choose|i: int| 0 <= i < points.len() && points[i] == p;
                if i < rest.len() {
                    assert(rest[i] == p);
                }
            }
            if rest.contains(p) {
                let i = choose|i: int| 0 <= i < rest.len() && rest[i] == p;
                assert(points[i] == p);
            }
            if p == last {
                assert(points[points.len() - 1] == p);
            }
        }
        if rest.contains(last) {
            let i = choose|i: int| 0 <= i < rest.len() && rest[i] == last;
            assert(points[i] == points[points.len() - 1]);
        }
    }
}

/// The contour of two or more points that all differ has one point more
/// than were given.
pub proof fn lemma_contour_length_of_distinct_points(points: Seq<Point>)
    requires
        points.len() >= 2,
        points.no_duplicates(),
    ensures
        end_copies(points) == 2,
        contour_of(points).len() == points.len() + 1,
        contour_of(points)[0] == contour_of(points)[points.len() as int],
{
    lemma_ends(points);
    lemma_ends_differ(points);
    assert(points[leftmost_index(points)] != points[rightmost_index(points)]);
    lemma_count_ends(points, leftmost(points), rightmost(points));
    lemma_contour_length(points);
}

/// The contour starts at a point that no given point lies to the left of.
pub proof fn lemma_contour_starts_leftmost(points: Seq<Point>, i: int)
    requires
        0 <= i < points.len(),
    ensures
        contour_of(points)[0].x <= points[i].x,
{
    lemma_contour_shape(points);
    lemma_ends(points);
}

/// Every point of the contour is one of the given points.
pub proof fn lemma_contour_points_are_given(points: Seq<Point>, k: int)
    requires
        points.len() > 0,
        0 <= k < contour_of(points).len(),
    ensures
        points.contains(contour_of(points)[k]),
{
    let left = leftmost(points);
    let right = rightmost(points);
    let upper = upper_chain(points);
    let lower = lower_chain(points);
    let ring = contour_of(points);
    lemma_contour_shape(points);
    lemma_ends(points);
    if 1 <= k < 1 + upper.len() {
        let given = points.filter(in_upper_chain(left, right));
        assert(ring[k] == upper[k - 1]);
        assert(upper.contains(upper[k - 1]));
        lemma_stable_sort_same_points(given, false, ring[k]);
        points.lemma_filter_contains_rev(in_upper_chain(left, right), ring[k]);
    } else if 2 + upper.len() <= k < ring.len() - 1 {
        let given = points.filter(in_lower_chain(left, right));
        assert(ring[k] == lower[k - 2 - upper.len()]);
        assert(lower.contains(lower[k - 2 - upper.len()]));
        lemma_stable_sort_same_points(given, true, ring[k]);
        points.lemma_filter_contains_rev(in_lower_chain(left, right), ring[k]);
    }
}

/// The left-turn test: whether `candidate` lies to the left of the way from
/// `origin` to `toward`, or on the line through them.
///
/// The cross product is computed in 128 bits, where it cannot overflow.
pub fn left_turn_test(origin: &Point, toward: &Point, candidate: &Point) -> (left: bool)
    ensures
        left == turns_left(*origin, *toward, *candidate),
{
    let toward_x: i64 = toward.x as i64 - origin.x as i64;
    let toward_y: i64 = toward.y as i64 - origin.y as i64;
    let candidate_x: i64 = candidate.x as i64 - origin.x as i64;
    let candidate_y: i64 = candidate.y as i64 - origin.y as i64;
    assert(-0x1_0000_0000_0000_0000 <= toward_x * candidate_y <= 0x1_0000_0000_0000_0000)
        by (nonlinear_arith)
        requires
            -0x1_0000_0000 <= toward_x <= 0x1_0000_0000,
            -0x1_0000_0000 <= candidate_y <= 0x1_0000_0000,
    ;
    assert(-0x1_0000_0000_0000_0000 <= toward_y * candidate_x <= 0x1_0000_0000_0000_0000)
        by (nonlinear_arith)
        requires
            -0x1_0000_0000 <= toward_y <= 0x1_0000_0000,
            -0x1_0000_0000 <= candidate_x <= 0x1_0000_0000,
    ;
    let first: i128 = (toward_x as i128) * (candidate_y as i128);
    let second: i128 = (toward_y as i128) * (candidate_x as i128);
    first >= second
}

/// Finds the leftmost and the rightmost point in one pass.
fn find_ends(points: &[Point]) -> (ends: (Point, Point))
    requires
        points@.len() > 0,
    ensures
        ends.0 == leftmost(points@),
        ends.1 == rightmost(points@),
{
    let mut left: Point = points[0];
    let mut right: Point = points[0];
    let ghost mut left_at: int = 0;
    let ghost mut right_at: int = 0;
    let mut seen: usize = 1;
    while seen < points.len()
        invariant
            1 <= seen <= points.len(),
            is_leftmost_index(points@.take(seen as int), left_at),
            is_rightmost_index(points@.take(seen as int), right_at),
            left == points@[left_at],
            right == points@[right_at],
        decreases points.len() - seen,
    {
        let p = points[seen];
        proof {
            let before = points@.take(seen as int);
            let after = points@.take(seen + 1);
            assert forall|j: int| 0 <= j < seen implies after[j] == #[trigger] before[j] by {}
            if p.x < left.x {
                assert(is_leftmost_index(after, seen as int)) by {
                    assert forall|j: int| 0 <= j < seen implies after[seen as int].x < (
                    #[trigger] after[j]).x by {
                        assert(before[left_at].x <= before[j].x);
                    }
                }
                left_at = seen as int;
            } else {
                assert(is_leftmost_index(after, left_at)) by {
                    assert forall|j: int| 0 <= j < left_at implies after[left_at].x < (
                    #[trigger] after[j]).x by {
                        assert(before[left_at].x < before[j].x);
                    }
                    assert forall|j: int| left_at < j < after.len() implies after[left_at].x <= (
                    #[trigger] after[j]).x by {
                        if j < seen {
                            assert(before[left_at].x <= before[j].x);
                        }
                    }
                }
            }
            if p.x >= right.x {
                assert(is_rightmost_index(after, seen as int)) by {
                    assert forall|j: int| 0 <= j < seen implies (#[trigger] after[j]).x
                        <= after[seen as int].x by {
                        assert(before[j].x <= before[right_at].x);
                    }
                }
                right_at = seen as int;
            } else {
                assert(is_rightmost_index(after, right_at)) by {
                    assert forall|j: int| 0 <= j < right_at implies (#[trigger] after[j]).x
                        <= after[right_at].x by {
                        assert(before[j].x <= before[right_at].x);
                    }
                    assert forall|j: int| right_at < j < after.len() implies (
                    #[trigger] after[j]).x < after[right_at].x by {
                        if j < seen {
                            assert(before[j].x < before[right_at].x);
                        }
                    }
                }
            }
        }
        if p.x < left.x {
            left = p;
        }
        if p.x >= right.x {
            right = p;
        }
        seen += 1;
    }
    proof {
        assert(points@.take(seen as int) =~= points@);
        lemma_leftmost_index(points@, left_at);
        lemma_rightmost_index(points@, right_at);
    }
    (left, right)
}

/// Splits the points that are neither end into those above the way from
/// `left` to `right` and those below it, each in the order given.
fn split_chains(points: &[Point], left: Point, right: Point) -> (chains: (Vec<Point>, Vec<Point>))
    ensures
        chains.0@ == points@.filter(in_upper_chain(left, right)),
        chains.1@ == points@.filter(in_lower_chain(left, right)),
{
    let mut upper: Vec<Point> = Vec::new();
    let mut lower: Vec<Point> = Vec::new();
    let mut seen: usize = 0;
    proof {
        points@.take(0).lemma_filter_len(in_upper_chain(left, right));
        points@.take(0).lemma_filter_len(in_lower_chain(left, right));
        assert(upper@ =~= points@.take(0).filter(in_upper_chain(left, right)));
        assert(lower@ =~= points@.take(0).filter(in_lower_chain(left, right)));
    }
    while seen < points.len()
        invariant
            seen <= points.len(),
            upper@ == points@.take(seen as int).filter(in_upper_chain(left, right)),
            lower@ == points@.take(seen as int).filter(in_lower_chain(left, right)),
        decreases points.len() - seen,
    {
        let p = points[seen];
        proof {
            assert(points@.take(seen + 1) =~= points@.take(seen as int).push(p));
            points@.take(seen as int).lemma_filter_push(p, in_upper_chain(left, right));
            points@.take(seen as int).lemma_filter_push(p, in_lower_chain(left, right));
        }
        if p != left && p != right {
            if left_turn_test(&left, &right, &p) {
                upper.push(p);
            } else {
                lower.push(p);
            }
        }
        seen += 1;
    }
    proof {
        assert(points@.take(seen as int) =~= points@);
    }
    (upper, lower)
}

/// Builds the contour of `points`: a closed ring that starts and ends at the
/// leftmost point, the first of those with the smallest `x`, and passes
/// through the rightmost one, the last of those with the largest `x`.
///
/// There is no contour of no points. Every point equal to the leftmost or to
/// the rightmost one is left out of both chains, so the ring has one point
/// more than `points` exactly when the two ends differ and each occurs once.
pub fn points_to_contour(points: &[Point]) -> (contour: Option<Vec<Point>>)
    ensures
        contour is None <==> points@.len() == 0,
        contour matches Some(ring) ==> {
            &&& ring@ == contour_of(points@)
            &&& ring@.len() == points@.len() + 3 - end_copies(points@)
            &&& end_copies(points@) == 2 ==> ring@.len() == points@.len() + 1
            &&& points@.len() >= 2 ==> 3 <= ring@.len() <= points@.len() + 1
            &&& ring@[0] == ring@[ring@.len() - 1]
            &&& forall|i: int| 0 <= i < points@.len() ==> ring@[0].x <= (#[trigger] points@[i]).x
            &&& ring@[upper_chain(points@).len() as int + 1] == rightmost(points@)
            &&& forall|i: int|
                0 <= i < points@.len() ==> (#[trigger] points@[i]).x <= rightmost(points@).x
            &&& forall|i: int|
                0 <= i < points@.len() && (#[trigger] points@[i]).x == rightmost(points@).x ==> i
                    <= rightmost_index(points@)
            &&& forall|k: int| 0 <= k < ring@.len() ==> points@.contains(#[trigger] ring@[k])
        },
{
    if points.len() == 0 {
        return None;
    }
    let (left, right) = find_ends(points);
    let (upper, lower) = split_chains(points, left, right);
    let mut upper = sort_by_x(&upper, false);
    let mut lower = sort_by_x(&lower, true);
    let mut ring: Vec<Point> = Vec::new();
    ring.push(left);
    ring.append(&mut upper);
    ring.push(right);
    ring.append(&mut lower);
    ring.push(left);
    proof {
        assert(ring@ =~= contour_of(points@));
        lemma_contour_shape(points@);
        lemma_ends(points@);
        assert forall|k: int| 0 <= k < ring@.len() implies points@.contains(
            #[trigger] ring@[k],
        ) by {
            lemma_contour_points_are_given(points@, k);
        }
    }
    Some(ring)
}

} // verus!
