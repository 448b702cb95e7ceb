//! The random source of the synthesiser.

use nanorand::Rng;
use vstd::prelude::*;

verus! {

/// `nanorand::WyRand`, the generator; its state is not looked into.
#[verifier::external_type_specification]
#[verifier::external_body]
pub struct ExWyRand(nanorand::WyRand);

/// `nanorand::WyRand::new_seed`: a generator whose stream of numbers is fixed
/// by the seed. Nothing is claimed of the generator.
#[verifier::external_body]
pub(crate) fn seeded_rng(seed: u64) -> nanorand::WyRand {
    nanorand::WyRand::new_seed(seed)
}

/// `nanorand::Rng::generate_range` on `0..n`: for a range that is not empty the
/// number drawn lies in it. Which number it is depends on the generator's
/// state and is not claimed.
#[verifier::external_body]
pub(crate) fn random_below(rng: &mut nanorand::WyRand, n: usize) -> (r: usize)
    requires
        n > 0,
    ensures
        r < n,
{
    rng.generate_range(0..n)
}

/// `rand::random::<u64>`: a number from the thread's random source. Nothing is
/// claimed of it.
#[verifier::external_body]
pub(crate) fn entropy_seed() -> u64 {
    rand::random::<u64>()
}

} // verus!
