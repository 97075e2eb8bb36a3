//! Random choices for the bots, from `rand`'s standard generator.

use rand::rngs::{OsRng, StdRng};
use rand::{Rng, SeedableRng};

use vstd::prelude::*;

verus! {

/// `rand::rngs::StdRng`, carried through opaquely.
#[verifier::external_type_specification]
#[verifier::external_body]
pub struct ExStdRng(StdRng);

/// A generator seeded from the operating system's randomness, or `None`
/// when the operating system cannot supply it (calls
/// `SeedableRng::from_rng` with `OsRng`, which reports that failure as an
/// error rather than panicking). Every call gives a different generator,
/// so nothing is stated of it.
#[verifier::external_body]
fn rng_from_os() -> Option<StdRng> {
    StdRng::from_rng(OsRng).ok()
}

/// The seed used when the operating system supplies no randomness.
pub const FALLBACK_SEED: u64 = 0x5EED_0F_F1E1D;

/// A generator for a bot: seeded from the operating system's randomness,
/// or from [`FALLBACK_SEED`] when the operating system cannot supply it.
pub fn fresh_rng() -> StdRng {
    match rng_from_os() {
        Some(r) => r,
        None => rng_from_seed(FALLBACK_SEED),
    }
}

/// A generator seeded from `seed` (calls `SeedableRng::seed_from_u64`);
/// the same seed gives the same stream. The generator is opaque here, so
/// nothing is stated of it.
#[verifier::external_body]
pub(crate) fn rng_from_seed(seed: u64) -> StdRng {
    StdRng::seed_from_u64(seed)
}

/// A uniformly random index below `n` (calls `Rng::gen_range` on `0..n`,
/// which panics on an empty range, hence `n > 0`). Which index comes out
/// depends on the generator's state, so only its range is stated.
#[verifier::external_body]
pub(crate) fn pick_index(rng: &mut StdRng, n: usize) -> (i: usize)
    requires
        n > 0,
    ensures
        i < n,
{
    rng.gen_range(0..n)
}

} // verus!
