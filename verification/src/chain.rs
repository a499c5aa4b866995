//! Sorting a chain of points by `x`, while points that share an `x` keep the
//! order in which they were given.

use vstd::prelude::*;
use crate::geometry::Point;

verus! {

/// The number by which a chain is ordered: `x` itself where the chain
/// ascends, `-x` where it descends.
pub open spec fn chain_key(p: Point, descending: bool) -> int {
    if descending {
        -(p.x as int)
    } else {
        p.x as int
    }
}

/// The predicate "has this `x`".
pub open spec fn with_x(x: int) -> spec_fn(Point) -> bool {
    |p: Point| p.x == x
}

/// No point of `chain` comes before a point with a smaller key.
pub open spec fn is_ordered_by_x(chain: Seq<Point>, descending: bool) -> bool {
    forall|i: int, j: int|
        0 <= i < j < chain.len() ==> chain_key(#[trigger] chain[i], descending) <= chain_key(
            #[trigger] chain[j],
            descending,
        )
}

/// For every `x`, the points with that `x` are the same in `a` and in `b`,
/// and stand in the same order.
pub open spec fn same_ties(a: Seq<Point>, b: Seq<Point>) -> bool {
    forall|x: int| a.filter(#[trigger] with_x(x)) == b.filter(with_x(x))
}

/// `chain` holds the points of `source`, ordered by `x`, and points that
/// share an `x` stand in `chain` as they stood in `source`.
pub open spec fn is_stable_sort_by_x(chain: Seq<Point>, source: Seq<Point>, descending: bool) -> bool {
    &&& chain.len() == source.len()
    &&& is_ordered_by_x(chain, descending)
    &&& same_ties(chain, source)
}

/// The stable sort of `source` by `x`: the one sequence that
/// `is_stable_sort_by_x` accepts (see `lemma_stable_sort_by_x` and
/// `lemma_stable_sort_unique`).
pub open spec fn stable_sort_by_x(source: Seq<Point>, descending: bool) -> Seq<Point> {
    choose|chain: Seq<Point>| is_stable_sort_by_x(chain, source, descending)
}

/// A sequence none of whose elements satisfies a predicate has an empty filter.
proof fn lemma_filter_none(s: Seq<Point>, pred: spec_fn(Point) -> bool)
    requires
        forall|i: int| 0 <= i < s.len() ==> !pred(#[trigger] s[i]),
    ensures
        s.filter(pred) == Seq::<Point>::empty(),
{
    let kept = s.filter(pred);
    if kept.len() > 0 {
        s.lemma_filter_pred(pred, 0);
        assert(kept.contains(kept[0]));
        s.lemma_filter_contains_rev(pred, kept[0]);
        let i = choose|i: int| 0 <= i < s.len() && s[i] == kept[0];
        assert(!pred(s[i]));
    }
    assert(kept =~= Seq::<Point>::empty());
}

/// Putting `p` behind the points that may precede it and before those that
/// must follow it keeps a chain a stable sort.
proof fn lemma_insert_keeps_stable(
    chain: Seq<Point>,
    source: Seq<Point>,
    p: Point,
    at: int,
    descending: bool,
)
    requires
        is_stable_sort_by_x(chain, source, descending),
        0 <= at <= chain.len(),
        forall|j: int|
            0 <= j < at ==> chain_key(#[trigger] chain[j], descending) <= chain_key(p, descending),
        forall|j: int|
            at <= j < chain.len() ==> chain_key(#[trigger] chain[j], descending) > chain_key(
                p,
                descending,
            ),
    ensures
        is_stable_sort_by_x(chain.insert(at, p), source.push(p), descending),
{
    let longer = chain.insert(at, p);
    let head = chain.subrange(0, at);
    let tail = chain.subrange(at, chain.len() as int);
    assert(chain =~= head + tail);
    assert(longer == head.push(p) + tail);
    assert forall|i: int, j: int| 0 <= i < j < longer.len() implies chain_key(
        #[trigger] longer[i],
        descending,
    ) <= chain_key(#[trigger] longer[j], descending) by {
        if j < at {
            assert(longer[i] == chain[i] && longer[j] == chain[j]);
        } else if j == at {
            assert(longer[i] == chain[i] && longer[j] == p);
        } else if i < at {
            assert(longer[i] == chain[i] && longer[j] == chain[j - 1]);
        } else if i == at {
            assert(longer[i] == p && longer[j] == chain[j - 1]);
        } else {
            assert(longer[i] == chain[i - 1] && longer[j] == chain[j - 1]);
        }
    }
    assert forall|x: int| longer.filter(#[trigger] with_x(x)) == source.push(p).filter(
        with_x(x),
    ) by {
        let has_x = with_x(x);
        Seq::filter_distributes_over_add(head.push(p), tail, has_x);
        Seq::filter_distributes_over_add(head, tail, has_x);
        head.lemma_filter_push(p, has_x);
        source.lemma_filter_push(p, has_x);
        assert(chain.filter(has_x) == source.filter(has_x));
        if has_x(p) {
            assert forall|i: int| 0 <= i < tail.len() implies !has_x(#[trigger] tail[i]) by {
                assert(tail[i] == chain[at + i]);
            }
            lemma_filter_none(tail, has_x);
            assert(head.filter(has_x) + Seq::<Point>::empty() =~= head.filter(has_x));
            assert(head.filter(has_x).push(p) + Seq::<Point>::empty() =~= head.filter(has_x).push(
                p,
            ));
        }
    }
}

/// Where `p` goes in an ordered chain: behind every point that may precede
/// it, the ones with its own `x` included.
proof fn lemma_insertion_point(chain: Seq<Point>, p: Point, descending: bool) -> (at: int)
    requires
        is_ordered_by_x(chain, descending),
    ensures
        0 <= at <= chain.len(),
        forall|j: int|
            0 <= j < at ==> chain_key(#[trigger] chain[j], descending) <= chain_key(p, descending),
        forall|j: int|
            at <= j < chain.len() ==> chain_key(#[trigger] chain[j], descending) > chain_key(
                p,
                descending,
            ),
    decreases chain.len(),
{
    if chain.len() == 0 {
        0
    } else if chain_key(chain.last(), descending) <= chain_key(p, descending) {
        assert forall|j: int| 0 <= j < chain.len() implies chain_key(
            #[trigger] chain[j],
            descending,
        ) <= chain_key(p, descending) by {
            if j < chain.len() - 1 {
                assert(chain_key(chain[j], descending) <= chain_key(
                    chain[chain.len() - 1],
                    descending,
                ));
            }
        }
        chain.len() as int
    } else {
        let rest = chain.drop_last();
        assert forall|i: int, j: int| 0 <= i < j < rest.len() implies chain_key(
            #[trigger] rest[i],
            descending,
        ) <= chain_key(#[trigger] rest[j], descending) by {
            assert(rest[i] == chain[i] && rest[j] == chain[j]);
        }
        let at = lemma_insertion_point(rest, p, descending);
        assert forall|j: int| 0 <= j < at implies chain_key(
            #[trigger] chain[j],
            descending,
        ) <= chain_key(p, descending) by {
            assert(chain[j] == rest[j]);
        }
        assert forall|j: int| at <= j < chain.len() implies chain_key(
            #[trigger] chain[j],
            descending,
        ) > chain_key(p, descending) by {
            if j < rest.len() {
                assert(chain[j] == rest[j]);
            }
        }
        at
    }
}

/// Every sequence of points has a stable sort by `x`.
proof fn lemma_stable_sort_exists(source: Seq<Point>, descending: bool) -> (chain: Seq<Point>)
    ensures
        is_stable_sort_by_x(chain, source, descending),
    decreases source.len(),
{
    if source.len() == 0 {
        assert(is_stable_sort_by_x(source, source, descending));
        source
    } else {
        let shorter = lemma_stable_sort_exists(source.drop_last(), descending);
        let at = lemma_insertion_point(shorter, source.last(), descending);
        lemma_insert_keeps_stable(shorter, source.drop_last(), source.last(), at, descending);
        assert(source.drop_last().push(source.last()) =~= source);
        shorter.insert(at, source.last())
    }
}

/// Two ordered chains of one length with the same ties are the same chain.
proof fn lemma_ordered_chains_agree(a: Seq<Point>, b: Seq<Point>, descending: bool)
    requires
        a.len() == b.len(),
        is_ordered_by_x(a, descending),
        is_ordered_by_x(b, descending),
        same_ties(a, b),
    ensures
        a == b,
    decreases a.len(),
{
    if a.len() == 0 {
        assert(a =~= b);
    } else {
        let a_rest = a.drop_last();
        let b_rest = b.drop_last();
        assert(a_rest.push(a.last()) =~= a);
        assert(b_rest.push(b.last()) =~= b);
        lemma_last_key_is_largest(a, b, descending);
        lemma_last_key_is_largest(b, a, descending);
        let has_x = with_x(a.last().x as int);
        assert(has_x(a.last()) && has_x(b.last()));
        a_rest.lemma_filter_push(a.last(), has_x);
        b_rest.lemma_filter_push(b.last(), has_x);
        assert(a.filter(has_x) == b.filter(has_x));
        assert(a.filter(has_x).last() == a.last());
        assert(b.filter(has_x).last() == b.last());
        assert forall|x: int| a_rest.filter(#[trigger] with_x(x)) == b_rest.filter(
            with_x(x),
        ) by {
            let same_x = with_x(x);
            a_rest.lemma_filter_push(a.last(), same_x);
            b_rest.lemma_filter_push(b.last(), same_x);
            assert(a.filter(same_x) == b.filter(same_x));
            if same_x(a.last()) {
                assert(a_rest.filter(same_x) =~= a.filter(same_x).drop_last());
                assert(b_rest.filter(same_x) =~= b.filter(same_x).drop_last());
            }
        }
        lemma_ordered_chains_agree(a_rest, b_rest, descending);
    }
}

/// The last key of an ordered chain is no smaller than the last key of a
/// chain with the same ties.
proof fn lemma_last_key_is_largest(a: Seq<Point>, b: Seq<Point>, descending: bool)
    requires
        0 < a.len(),
        0 < b.len(),
        is_ordered_by_x(b, descending),
        same_ties(a, b),
    ensures
        chain_key(a.last(), descending) <= chain_key(b.last(), descending),
{
    let has_x = with_x(a.last().x as int);
    assert(has_x(a.last()));
    a.lemma_filter_contains(has_x, a.len() - 1);
    assert(b.filter(has_x).contains(a.last()));
    b.lemma_filter_contains_rev(has_x, a.last());
    let j = choose|j: int| 0 <= j < b.len() && b[j] == a.last();
    if j < b.len() - 1 {
        assert(chain_key(b[j], descending) <= chain_key(b[b.len() - 1], descending));
    }
}

/// The stable sort of a sequence is a stable sort of it: it has the same
/// length, is ordered, and keeps ties in their order.
pub proof fn lemma_stable_sort_by_x(source: Seq<Point>, descending: bool)
    ensures
        is_stable_sort_by_x(stable_sort_by_x(source, descending), source, descending),
{
    let witness = lemma_stable_sort_exists(source, descending);
}

/// A sequence has one stable sort only.
pub proof fn lemma_stable_sort_unique(chain: Seq<Point>, source: Seq<Point>, descending: bool)
    requires
        is_stable_sort_by_x(chain, source, descending),
    ensures
        chain == stable_sort_by_x(source, descending),
{
    let chosen = stable_sort_by_x(source, descending);
    lemma_stable_sort_by_x(source, descending);
    assert forall|x: int| chain.filter(#[trigger] with_x(x)) == chosen.filter(with_x(x)) by {
        assert(chain.filter(with_x(x)) == source.filter(with_x(x)));
        assert(chosen.filter(with_x(x)) == source.filter(with_x(x)));
    }
    lemma_ordered_chains_agree(chain, chosen, descending);
}

/// The stable sort of a sequence holds the points of the sequence, and no
/// others.
pub proof fn lemma_stable_sort_same_points(source: Seq<Point>, descending: bool, p: Point)
    ensures
        stable_sort_by_x(source, descending).contains(p) <==> source.contains(p),
{
    let chain = stable_sort_by_x(source, descending);
    lemma_stable_sort_by_x(source, descending);
    let has_x = with_x(p.x as int);
    assert(has_x(p));
    assert(chain.filter(has_x) == source.filter(has_x));
    if chain.contains(p) {
        let i = choose|i: int| 0 <= i < chain.len() && chain[i] == p;
        chain.lemma_filter_contains(has_x, i);
        source.lemma_filter_contains_rev(has_x, p);
    }
    if source.contains(p) {
        let i = choose|i: int| 0 <= i < source.len() && source[i] == p;
        source.lemma_filter_contains(has_x, i);
        chain.lemma_filter_contains_rev(has_x, p);
    }
}

/// Whether `p` must stand before `q` in a chain.
fn goes_before(p: Point, q: Point, descending: bool) -> (before: bool)
    ensures
        before == (chain_key(p, descending) < chain_key(q, descending)),
{
    if descending {
        p.x > q.x
    } else {
        p.x < q.x
    }
}

/// Sorts points by `x`, ascending or descending; points that share an `x`
/// keep the order in which they were given.
pub fn sort_by_x(points: &Vec<Point>, descending: bool) -> (chain: Vec<Point>)
    ensures
        chain@ == stable_sort_by_x(points@, descending),
{
    let mut chain: Vec<Point> = Vec::new();
    let mut taken: usize = 0;
    assert(is_stable_sort_by_x(chain@, points@.take(0), descending)) by {
        assert(points@.take(0) =~= chain@);
    }
    while taken < points.len()
        invariant
            taken <= points.len(),
            is_stable_sort_by_x(chain@, points@.take(taken as int), descending),
        decreases points.len() - taken,
    {
        let p = points[taken];
        let mut at: usize = chain.len();
        while at > 0 && goes_before(p, chain[at - 1], descending)
            invariant
                at <= chain.len(),
                forall|j: int|
                    at <= j < chain.len() ==> chain_key(#[trigger] chain@[j], descending)
                        > chain_key(p, descending),
            decreases at,
        {
            at -= 1;
        }
        proof {
            assert forall|j: int| 0 <= j < at implies chain_key(
                #[trigger] chain@[j],
                descending,
            ) <= chain_key(p, descending) by {
                if j < at - 1 {
                    assert(chain_key(chain@[j], descending) <= chain_key(
                        chain@[at - 1],
                        descending,
                    ));
                }
            }
            lemma_insert_keeps_stable(
                chain@,
                points@.take(taken as int),
                p,
                at as int,
                descending,
            );
            assert(points@.take(taken + 1) =~= points@.take(taken as int).push(p));
        }
        chain.insert(at, p);
        taken += 1;
    }
    proof {
        assert(points@.take(taken as int) =~= points@);
        lemma_stable_sort_unique(chain@, points@, descending);
    }
    chain
}

} // verus!
