//! The random source for the walk, injected as a capability value.
//!
//! `MazeRng` wraps a `rand::rngs::StdRng` and carries a ghost identifier for
//! the generator's state. A seeded generator draws a fixed stream, so the
//! value drawn at a given state and the successor state are named as
//! uninterpreted functions of the state: contracts downstream can then pin a
//! whole generation run as a function of the starting state alone.

use vstd::prelude::*;

use rand::Rng;
use rand::SeedableRng;
use rand::seq::SliceRandom;

use crate::grid::Neighbour;

verus! {

/// The state a `StdRng` holds right after being seeded with `seed`.
pub uninterp spec fn seeded_state(seed: u64) -> int;

/// The value a generator at `state` draws uniformly below `bound`, and the
/// state it holds afterwards.
pub uninterp spec fn picked(state: int, bound: usize) -> (usize, int);

/// The position a generator at `state` chooses uniformly in a slice of the
/// given length, and the state it holds afterwards.
pub uninterp spec fn chosen(state: int, len: usize) -> (usize, int);

#[verifier::external_type_specification]
#[verifier::external_body]
pub struct ExStdRng(rand::rngs::StdRng);

/// A random source for maze generation: a `StdRng` together with the ghost
/// identifier of its current state.
pub struct MazeRng {
    inner: rand::rngs::StdRng,
    state: Ghost<int>,
}

impl View for MazeRng {
    type V = int;

    closed spec fn view(&self) -> int {
        self.state@
    }
}

/// An unconstrained ghost state identifier, for fields of freshly built
/// sources.
fn fresh_state() -> Ghost<int> {
    Ghost(vstd::pervasive::arbitrary())
}

impl MazeRng {
    /// Relies on `rand::rngs::StdRng::seed_from_u64` (`SeedableRng`): the
    /// generator is a deterministic function of the seed alone, so two
    /// sources made from the same seed draw the same stream.
    #[verifier::external_body]
    pub fn from_seed(seed: u64) -> (r: MazeRng)
        ensures
            r@ == seeded_state(seed),
    {
        MazeRng { inner: rand::rngs::StdRng::seed_from_u64(seed), state: fresh_state() }
    }

    /// Relies on `rand::rngs::StdRng::from_entropy` (`SeedableRng`): a
    /// generator seeded from operating-system entropy; nothing is promised
    /// of its draws, and its state is unconstrained.
    #[verifier::external_body]
    pub fn from_entropy() -> (r: MazeRng)
    {
        MazeRng { inner: rand::rngs::StdRng::from_entropy(), state: fresh_state() }
    }

    /// Relies on `rand::Rng::gen_range` over `0..bound`: a uniform value
    /// below `bound`, defined only for a non-empty range; the value drawn
    /// and the successor state are functions of (state, bound) alone.
    #[verifier::external_body]
    pub(crate) fn pick_below(&mut self, bound: usize) -> (r: usize)
        requires
            bound >= 1,
        ensures
            r < bound,
            r == picked(old(self)@, bound).0,
            final(self)@ == picked(old(self)@, bound).1,
    {
        self.inner.gen_range(0..bound)
    }

    /// Relies on `rand::seq::SliceRandom::choose` on a non-empty slice: it
    /// returns the element at a uniform position below the length; the
    /// position and the successor state are functions of (state, length)
    /// alone.
    #[verifier::external_body]
    pub(crate) fn choose_neighbour(&mut self, items: &Vec<Neighbour>) -> (n: Neighbour)
        requires
            items@.len() >= 1,
        ensures
            chosen(old(self)@, items@.len() as usize).0 < items@.len(),
            n == items@[chosen(old(self)@, items@.len() as usize).0 as int],
            final(self)@ == chosen(old(self)@, items@.len() as usize).1,
    {
        *items.choose(&mut self.inner).unwrap()
    }
}

} // verus!
