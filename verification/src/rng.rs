//! Random streams: one reproducibly seeded master stream per run and one
//! independent agent stream per construction, so agents never share
//! randomness. The streams come from outside crates and are trusted at
//! this boundary; nothing is assumed of the values drawn beyond their
//! range.

use vstd::prelude::*;
use rand::Rng;
use rand::RngCore;
use rand::SeedableRng;

verus! {

#[verifier::external_type_specification]
#[verifier::external_body]
pub struct ExSmallRng(rand::rngs::SmallRng);

#[verifier::external_type_specification]
#[verifier::external_body]
pub struct ExChaCha8Rng(rand_chacha::ChaCha8Rng);

/// Relies on `SeedableRng::from_seed` for `rand::rngs::SmallRng`: builds
/// an agent's own stream from a 32-byte seed.
#[verifier::external_body]
pub(crate) fn agent_stream(seed: [u8; 32]) -> (rng: rand::rngs::SmallRng) {
    rand::rngs::SmallRng::from_seed(seed)
}

/// Relies on `SeedableRng::from_seed` for `rand_chacha::ChaCha8Rng`:
/// builds the run's master stream from its 32-byte seed.
#[verifier::external_body]
pub(crate) fn master_stream(seed: [u8; 32]) -> (rng: rand_chacha::ChaCha8Rng) {
    rand_chacha::ChaCha8Rng::from_seed(seed)
}

/// Relies on `RngCore::fill_bytes`: fills a fresh 32-byte seed for one
/// agent from the master stream.
#[verifier::external_body]
pub(crate) fn next_seed(rng: &mut rand_chacha::ChaCha8Rng) -> (seed: [u8; 32]) {
    let mut seed = [0u8; 32];
    rng.fill_bytes(&mut seed);
    seed
}

/// Relies on `Rng::random_range` over `0..bound`: the draw lies below
/// `bound`; the range must be non-empty, as the call panics otherwise.
#[verifier::external_body]
pub(crate) fn pick_start(rng: &mut rand_chacha::ChaCha8Rng, bound: usize) -> (r: usize)
    requires
        bound >= 1,
    ensures
        r < bound,
{
    rng.random_range(0..bound)
}

/// Relies on `Rng::random_range` over `0..bound`: the draw lies below
/// `bound`; the range must be non-empty, as the call panics otherwise.
#[verifier::external_body]
pub(crate) fn draw_below(rng: &mut rand::rngs::SmallRng, bound: u64) -> (r: u64)
    requires
        bound >= 1,
    ensures
        r < bound,
{
    rng.random_range(0..bound)
}

} // verus!
