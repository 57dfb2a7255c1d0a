//! The stream of candidate hash keys that the generators try in turn.

use crate::lut_phf::hashing::HashKey;
use rand::rngs::SmallRng;
use vstd::prelude::*;

verus! {

/// The seed of the candidate stream.
pub const FIXED_SEED: u64 = 1_234_567_890;

/// How many candidates a generator tries before it gives up.
pub const MAX_ATTEMPTS: usize = 64;

/// `rand::rngs::SmallRng`, a small pseudo-random generator whose state is
/// not looked into here.
#[verifier::external_type_specification]
#[verifier::external_body]
pub struct ExSmallRng(SmallRng);

/// Calls `SmallRng::seed_from_u64`, which expands the seed into the
/// generator's initial state. Nothing is claimed of that state.
#[verifier::external_body]
pub(crate) fn seeded_rng(seed: u64) -> SmallRng {
    rand::SeedableRng::seed_from_u64(seed)
}

/// Calls `Rng::sample` with the `Standard` distribution, which draws the
/// generator's next 64 bits. Nothing is claimed of their value.
#[verifier::external_body]
pub(crate) fn next_hash_key(rng: &mut SmallRng) -> HashKey {
    rand::Rng::sample(rng, rand::distributions::Standard)
}

/// Draws the first `count` hash keys of the candidate stream that starts at
/// `seed`. Which keys they are is not known here.
pub fn draw_candidates(seed: u64, count: usize) -> (candidates: Vec<HashKey>)
    ensures
        candidates@.len() == count,
{
    let mut rng = seeded_rng(seed);
    let mut candidates: Vec<HashKey> = Vec::new();
    while candidates.len() < count
        invariant
            candidates.len() <= count,
        decreases count - candidates.len(),
    {
        let key = next_hash_key(&mut rng);
        candidates.push(key);
    }
    candidates
}

} // verus!
