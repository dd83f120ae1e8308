//! The engine's two external collaborators, behind narrow interfaces: the
//! per-instance random generator, reached through trusted wrappers, and a
//! host that supplies normally-distributed draws and observes every tick
//! for statistics.

use vstd::prelude::*;

use crate::agent::Agent;
use crate::world::World;

verus! {

#[verifier::external_type_specification]
#[verifier::external_body]
pub struct ExStdRng(rand::rngs::StdRng);

/// Relies on rand's `SeedableRng::seed_from_u64`: builds the per-instance
/// generator from a seed, so that runs are reproducible.
#[verifier::external_body]
pub fn rng_from_seed(seed: u64) -> rand::rngs::StdRng {
    <rand::rngs::StdRng as rand::SeedableRng>::seed_from_u64(seed)
}

/// Relies on rand's `Rng::gen_range`: a uniform draw from `0..n`. Nothing
/// more is promised of the value than its range.
#[verifier::external_body]
pub fn rng_below(rng: &mut rand::rngs::StdRng, n: u32) -> (r: u32)
    requires
        n > 0,
    ensures
        r < n,
{
    rand::Rng::gen_range(rng, 0..n)
}

/// What the engine asks of its host: draws from the two normal
/// distributions the engine itself cannot hold (it is written without
/// floating point), and the two statistics callbacks. Nothing is assumed of
/// the values a host returns.
pub trait SimHost {
    /// A fresh greed value for a newly created agent.
    fn greed_sample(&mut self) -> u32;

    /// A fresh stock amount for a respawning resource.
    fn respawn_amount(&mut self) -> u16;

    /// Called once per live agent per tick, and once more on the tick an
    /// agent dies.
    fn on_agent_step(&mut self, agent: &Agent, idx: usize);

    /// Called once per tick, after every entity has been stepped.
    fn on_tick(&mut self, world: &World);
}

} // verus!
