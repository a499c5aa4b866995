//! The random source, and the draws that the generators make from it.

use vstd::prelude::*;
use rand::rngs::StdRng;
use rand::Rng;

verus! {

/// `rand`'s standard generator. Nothing is known of what is inside one.
#[verifier::external_type_specification]
#[verifier::external_body]
pub struct ExStdRng(StdRng);

/// Draws a number from `low` up to, but without, `high`:
/// `Rng::random_range` on the range `low..high` of `i64`. It panics on an
/// empty range, which `requires` leaves out; what it returns lies in the
/// range, and nothing more is claimed of it.
#[verifier::external_body]
fn random_between(rng: &mut StdRng, low: i64, high: i64) -> (drawn: i64)
    requires
        low < high,
    ensures
        low <= drawn < high,
{
    rng.random_range(low..high)
}

/// Draws a count from `low` up to, but without, `high`:
/// `Rng::random_range` on the range `low..high` of `usize`. It panics on an
/// empty range, which `requires` leaves out; what it returns lies in the
/// range, and nothing more is claimed of it.
#[verifier::external_body]
fn random_count(rng: &mut StdRng, low: usize, high: usize) -> (drawn: usize)
    requires
        low < high,
    ensures
        low <= drawn < high,
{
    rng.random_range(low..high)
}

/// A random source that keeps, for proofs, a log of the numbers drawn from
/// it and of the bounds that each was drawn between. The generators say in
/// their contracts what they asked for, in which order, what they drew, and
/// what they made of it: each shape is a function of the parameters and of
/// the numbers that the source handed out.
pub struct RandomSource {
    rng: StdRng,
    drawn: Ghost<Seq<int>>,
    asked: Ghost<Seq<(int, int)>>,
}

impl RandomSource {
    /// The numbers drawn from this source so far, the oldest first.
    pub closed spec fn drawn(&self) -> Seq<int> {
        self.drawn@
    }

    /// The bounds that each number was drawn between, the oldest first: the
    /// number is at least the first of the two and less than the second.
    pub closed spec fn asked(&self) -> Seq<(int, int)> {
        self.asked@
    }

    /// The generator that the source draws from, as it stands.
    pub closed spec fn generator(&self) -> StdRng {
        self.rng
    }

    /// The numbers drawn since the log was `before`.
    pub open spec fn drawn_since(&self, before: Seq<int>) -> Seq<int> {
        self.drawn().skip(before.len() as int)
    }

    /// The log is `before` and what was drawn since.
    pub open spec fn extends(&self, before: Seq<int>) -> bool {
        self.drawn() == before + self.drawn_since(before)
    }

    /// A source that draws from `rng`, with an empty log.
    pub fn new(rng: StdRng) -> (source: RandomSource)
        ensures
            source.drawn() == Seq::<int>::empty(),
            source.asked() == Seq::<(int, int)>::empty(),
            source.generator() == rng,
    {
        RandomSource { rng, drawn: Ghost(Seq::empty()), asked: Ghost(Seq::empty()) }
    }

    /// Gives the generator back, as the draws have left it.
    pub fn into_inner(self) -> (rng: StdRng)
        ensures
            rng == self.generator(),
    {
        self.rng
    }

    /// Draws a number from `low` up to, but without, `high`, and logs it
    /// and its bounds.
    /// There is no number to draw where `low` is not less than `high`.
    pub fn draw_between(&mut self, low: i64, high: i64) -> (value: i64)
        requires
            low < high,
        ensures
            low <= value < high,
            final(self).drawn() == old(self).drawn().push(value as int),
            final(self).asked() == old(self).asked().push((low as int, high as int)),
    {
        let value = random_between(&mut self.rng, low, high);
        self.drawn = Ghost(self.drawn@.push(value as int));
        self.asked = Ghost(self.asked@.push((low as int, high as int)));
        value
    }

    /// Draws a count from `low` up to, but without, `high`, and logs it and
    /// its bounds.
    /// There is no count to draw where `low` is not less than `high`.
    pub fn draw_count(&mut self, low: usize, high: usize) -> (value: usize)
        requires
            low < high,
        ensures
            low <= value < high,
            final(self).drawn() == old(self).drawn().push(value as int),
            final(self).asked() == old(self).asked().push((low as int, high as int)),
    {
        let value = random_count(&mut self.rng, low, high);
        self.drawn = Ghost(self.drawn@.push(value as int));
        self.asked = Ghost(self.asked@.push((low as int, high as int)));
        value
    }
}

} // verus!
