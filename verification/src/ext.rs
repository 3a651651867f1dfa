//! The trusted boundary around the `rand` and `rayon` crates: the random
//! number generator that drives rollouts, and the parallel execution of one
//! expansion batch's rollouts.

use vstd::prelude::*;
use rayon::iter::{IntoParallelRefIterator, ParallelIterator};
use crate::state::{reachable_within, State};

verus! {

#[verifier::external_type_specification]
#[verifier::external_body]
pub struct ExStdRng(rand::rngs::StdRng);

/// Relies on `StdRng: SeedableRng::seed_from_u64`: a generator derived from
/// the seed alone, so runs with the same seed draw the same numbers.
#[verifier::external_body]
pub(crate) fn rng_from_seed(seed: u64) -> rand::rngs::StdRng {
    <rand::rngs::StdRng as rand::SeedableRng>::seed_from_u64(seed)
}

/// Relies on `StdRng: SeedableRng::from_entropy`: a generator seeded from
/// the operating system. Aborts only if the system entropy source fails.
#[verifier::external_body]
pub(crate) fn rng_from_entropy() -> rand::rngs::StdRng {
    <rand::rngs::StdRng as rand::SeedableRng>::from_entropy()
}

/// Relies on `Rng::gen_range` over `0..len`: the sample lies in the range,
/// which must not be empty (an empty range would panic).
#[verifier::external_body]
pub(crate) fn gen_index(rng: &mut rand::rngs::StdRng, len: usize) -> (r: usize)
    requires
        len >= 1,
    ensures
        r < len,
{
    rand::Rng::gen_range(rng, 0..len)
}

/// One random playout from a copy of `state`, on a generator freshly seeded
/// from the operating system; the reward is reported from the perspective of
/// the player to move at `state`, and is always the reward of a terminal
/// position reachable from `state` by legal steps.
pub(crate) fn rollout_from_entropy<S: State>(state: &S) -> (r: i64)
    requires
        state.wf(),
    ensures
        -1 <= r <= 1,
        exists|t: S|
            {
                &&& #[trigger] reachable_within(*state, t, state.measure_spec())
                &&& t.terminal_spec()
                &&& r == t.reward_spec(state.to_play_spec())
            },
        state.terminal_spec() ==> r == state.reward_spec(state.to_play_spec()),
{
    let mut rng = rng_from_entropy();
    let to_play = state.to_play();
    crate::search::random_playout(state.duplicate(), to_play, &mut rng)
}

/// Relies on rayon's parallel iterator: `par_iter().map(f).collect()` yields
/// `f` of each input, one result per input and in input order, evaluated
/// across worker threads. Every result comes from [`rollout_from_entropy`],
/// whose contract bounds it.
#[verifier::external_body]
pub(crate) fn par_rollouts<S: State>(states: &Vec<S>) -> (r: Vec<i64>)
    requires
        forall|i: int| 0 <= i < states@.len() ==> states@[i].wf(),
    ensures
        r@.len() == states@.len(),
        forall|i: int| 0 <= i < r@.len() ==> -1 <= #[trigger] r@[i] <= 1,
{
    states.par_iter().map(rollout_from_entropy).collect()
}

} // verus!
