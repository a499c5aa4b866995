//! Accepting polygons one by one, under a budget of collisions.

use vstd::prelude::*;
use crate::geometry::{MultiPolygon, Point, Polygon, polygons_intersect, rings_disjoint, rings_hit};
use crate::parameters::GeoRandParameters;

verus! {

/// Where an accumulation stands.
#[derive(Debug, Clone, Copy, PartialEq, Eq, Structural)]
pub enum Phase {
    /// More polygons are wanted, and a further collision is allowed.
    Accumulating,
    /// As many collisions were counted as the budget allows, and polygons are
    /// still wanting. The accumulation is over; what it holds is valid.
    BudgetExhausted,
    /// As many polygons were accepted as were asked for. The accumulation is
    /// over.
    TargetReached,
}

/// What an accumulation holds: the rings of the polygons accepted so far,
/// and how many polygons were thrown away.
#[verifier::ext_equal]
pub struct Tally {
    pub accepted: Seq<Seq<Point>>,
    pub collisions: nat,
}

impl Tally {
    /// Nothing accepted, nothing thrown away.
    pub open spec fn empty() -> Tally {
        Tally { accepted: Seq::empty(), collisions: 0 }
    }

    /// Where the accumulation stands. The count of polygons is looked at
    /// first, so an accumulation that has all its polygons has reached its
    /// target whatever its collisions.
    pub open spec fn phase(self, parameters: GeoRandParameters<i32>) -> Phase {
        if self.accepted.len() >= parameters.max_polygons_count {
            Phase::TargetReached
        } else if parameters.max_collisions_count matches Some(budget) && self.collisions
            >= budget {
            Phase::BudgetExhausted
        } else {
            Phase::Accumulating
        }
    }

    /// `candidate` is thrown away: there is a budget of collisions, and
    /// `candidate` intersects a polygon that was accepted.
    pub open spec fn rejects(self, candidate: Seq<Point>, parameters: GeoRandParameters<i32>) -> bool {
        parameters.max_collisions_count is Some && rings_hit(self.accepted, candidate)
    }

    /// What the accumulation holds once `candidate` was offered. While the
    /// accumulation is going on, the polygon is accepted, unless it is
    /// thrown away and counted; an accumulation that is over stays as it is.
    pub open spec fn offer(self, candidate: Seq<Point>, parameters: GeoRandParameters<i32>) -> Tally {
        if self.phase(parameters) != Phase::Accumulating {
            self
        } else if self.rejects(candidate, parameters) {
            Tally { accepted: self.accepted, collisions: self.collisions + 1 }
        } else {
            Tally { accepted: self.accepted.push(candidate), collisions: self.collisions }
        }
    }

    /// No more collisions were counted than the budget allows, and none
    /// where there is no budget.
    pub open spec fn is_within_budget(self, parameters: GeoRandParameters<i32>) -> bool {
        match parameters.max_collisions_count {
            Some(budget) => self.collisions <= budget,
            None => self.collisions == 0,
        }
    }

    /// How far the accumulation is from its end at most: the polygons that
    /// are wanting and the collisions that are left.
    pub open spec fn distance(self, parameters: GeoRandParameters<i32>) -> int {
        parameters.max_polygons_count - self.accepted.len() + (
        match parameters.max_collisions_count {
            Some(budget) => if self.collisions < budget {
                budget - self.collisions
            } else {
                0
            },
            None => 0,
        })
    }
}

/// While an accumulation is going on, each offer brings it one step nearer
/// to its end, keeps it within its budget, and, under a budget, keeps the
/// accepted polygons from intersecting one another.
pub proof fn lemma_offer(tally: Tally, candidate: Seq<Point>, parameters: GeoRandParameters<i32>)
    requires
        tally.phase(parameters) == Phase::Accumulating,
    ensures
        tally.offer(candidate, parameters).distance(parameters) == tally.distance(parameters) - 1,
        tally.is_within_budget(parameters) ==> tally.offer(candidate, parameters).is_within_budget(
            parameters,
        ),
        parameters.max_collisions_count is Some && rings_disjoint(tally.accepted)
            ==> rings_disjoint(tally.offer(candidate, parameters).accepted),
        tally.offer(candidate, parameters).accepted.len() <= parameters.max_polygons_count,
{
    let next = tally.offer(candidate, parameters);
    if parameters.max_collisions_count is Some && rings_disjoint(tally.accepted) {
        assert forall|i: int, j: int| 0 <= i < j < next.accepted.len() implies !polygons_intersect(
            #[trigger] next.accepted[j],
            #[trigger] next.accepted[i],
        ) by {
            if j < tally.accepted.len() {
                assert(next.accepted[j] == tally.accepted[j]);
                assert(next.accepted[i] == tally.accepted[i]);
            } else {
                assert(!rings_hit(tally.accepted, candidate));
                assert(next.accepted[i] == tally.accepted[i]);
            }
        }
    }
}

/// The polygons accepted so far, and how many were thrown away.
#[derive(Debug)]
pub struct Accumulation {
    pub accepted: MultiPolygon,
    pub collisions: u32,
}

impl View for Accumulation {
    type V = Tally;

    open spec fn view(&self) -> Tally {
        Tally { accepted: self.accepted@, collisions: self.collisions as nat }
    }
}

impl Accumulation {
    /// An accumulation that holds no polygon and has counted no collision.
    pub fn new() -> (start: Accumulation)
        ensures
            start@ == Tally::empty(),
    {
        let start = Accumulation { accepted: MultiPolygon(Vec::new()), collisions: 0 };
        assert(start@ =~= Tally::empty());
        start
    }

    /// Where the accumulation stands.
    pub fn phase(&self, parameters: &GeoRandParameters<i32>) -> (phase: Phase)
        ensures
            phase == self@.phase(*parameters),
    {
        if self.accepted.0.len() >= parameters.max_polygons_count {
            Phase::TargetReached
        } else if parameters.is_exhausted(self.collisions) {
            Phase::BudgetExhausted
        } else {
            Phase::Accumulating
        }
    }

    /// Offers a polygon. While the accumulation is going on, the polygon is
    /// accepted, unless there is a budget of collisions and the polygon
    /// intersects one accepted earlier: then it is thrown away and counted.
    /// An accumulation that is over takes nothing and counts nothing.
    ///
    /// Returns whether the polygon was accepted.
    pub fn offer(&mut self, candidate: Polygon, parameters: &GeoRandParameters<i32>) -> (taken:
        bool)
        ensures
            final(self)@ == old(self)@.offer(candidate@, *parameters),
            taken == (old(self)@.phase(*parameters) == Phase::Accumulating && !old(self)@.rejects(
                candidate@,
                *parameters,
            )),
            taken ==> final(self).accepted.0@ == old(self).accepted.0@.push(candidate),
            !taken ==> final(self).accepted.0@ == old(self).accepted.0@,
    {
        if self.phase(parameters) != Phase::Accumulating {
            return false;
        }
        if parameters.max_collisions_count.is_some() && self.accepted.intersects(&candidate) {
            self.collisions = self.collisions + 1;
            assert(self@ =~= old(self)@.offer(candidate@, *parameters));
            false
        } else {
            self.accepted.0.push(candidate);
            assert(self.accepted@ =~= old(self).accepted@.push(candidate@));
            assert(self@ =~= old(self)@.offer(candidate@, *parameters));
            true
        }
    }
}

} // verus!
