//! The seeded generator that drives the alphabet's permutations.

use rand::Rng;
use rand::SeedableRng;
use rand::rngs::StdRng;
use vstd::prelude::*;

verus! {

/// Makes `rand::rngs::StdRng` known as a type whose inside is not looked
/// into.
#[verifier::external_type_specification]
#[verifier::external_body]
pub struct ExStdRng(StdRng);

/// The seed that a generator was made from: one half of its history.
pub uninterp spec fn rng_seed(rng: StdRng) -> Seq<u8>;

/// The bounds of the draws that were made from a generator since it was
/// seeded, the first draw first: the other half of its history.
pub uninterp spec fn rng_draws(rng: StdRng) -> Seq<usize>;

/// The index that a generator made from `seed` gives when, after draws with
/// the bounds `earlier`, it is asked for an index below `bound`. The generator
/// is deterministic: its results depend on nothing but its seed and what was
/// asked of it before.
pub uninterp spec fn drawn_index(seed: Seq<u8>, earlier: Seq<usize>, bound: usize) -> usize;

/// What the results of a generator depend on: its seed, and the bounds of the
/// draws made so far.
pub struct RngState {
    pub seed: Seq<u8>,
    pub draws: Seq<usize>,
}

impl RngState {
    /// The state of a generator that was just made from `seed`.
    pub open spec fn fresh(seed: Seq<u8>) -> RngState {
        RngState { seed, draws: Seq::empty() }
    }

    /// The index below `bound` that the next draw gives.
    pub open spec fn next_index(self, bound: nat) -> int {
        if bound == 0 {
            0
        } else {
            drawn_index(self.seed, self.draws, bound as usize) as int % bound as int
        }
    }

    /// The state after a draw of an index below `bound`.
    pub open spec fn after_draw(self, bound: nat) -> RngState {
        RngState { seed: self.seed, draws: self.draws.push(bound as usize) }
    }
}

/// The state of the generator `rng`.
pub open spec fn state_of(rng: StdRng) -> RngState {
    RngState { seed: rng_seed(rng), draws: rng_draws(rng) }
}

/// Calls `StdRng::from_seed`. The generator that comes back was made from
/// `seed` and no draw was made from it yet.
#[verifier::external_body]
pub(crate) fn rng_from_seed(seed: [u8; 32]) -> (rng: StdRng)
    ensures
        rng_seed(rng) == seed@,
        rng_draws(rng) == Seq::<usize>::empty(),
{
    StdRng::from_seed(seed)
}

/// Calls `Rng::gen_range` with the bounds 0 and `bound`, as 64-bit numbers, so
/// that the draw does not depend on the machine's word size. The index lies
/// below `bound`, it is the one that `drawn_index` names for the generator's seed
/// and earlier draws, and the draw is recorded in the generator.
#[verifier::external_body]
pub(crate) fn draw_index(rng: &mut StdRng, bound: usize) -> (index: usize)
    requires
        bound > 0,
    ensures
        index < bound,
        index == drawn_index(rng_seed(*old(rng)), rng_draws(*old(rng)), bound),
        rng_seed(*final(rng)) == rng_seed(*old(rng)),
        rng_draws(*final(rng)) == rng_draws(*old(rng)).push(bound),
{
    rng.gen_range(0u64, bound as u64) as usize
}

/// Draws an index below `bound` from `rng`.
pub fn next_index(rng: &mut StdRng, bound: usize) -> (index: usize)
    requires
        bound > 0,
    ensures
        index < bound,
        index == state_of(*old(rng)).next_index(bound as nat),
        state_of(*final(rng)) == state_of(*old(rng)).after_draw(bound as nat),
{
    let index = draw_index(rng, bound);
    assert(index as int % bound as int == index) by (nonlinear_arith)
        requires
            0 <= index < bound,
    ;
    index
}

} // verus!
