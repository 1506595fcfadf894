//! The random source of the search: the small generator of the `rand`
//! crate, and the permutation that it draws.

use vstd::prelude::*;
use rand::rngs::OsRng;
use rand::rngs::SmallRng;
use rand::seq::SliceRandom;
use rand::SeedableRng;

verus! {

#[verifier::external_type_specification]
#[verifier::external_body]
pub struct ExSmallRng(rand::rngs::SmallRng);

/// `SmallRng::from_rng` on `OsRng`: a generator seeded by the operating
/// system, or `None` where the system gives no entropy. Nothing is claimed
/// of the generator, nor that one is returned.
#[verifier::external_body]
pub(crate) fn entropy_rng() -> Option<SmallRng> {
    SmallRng::from_rng(OsRng).ok()
}

/// `SmallRng::seed_from_u64`: a generator whose stream is fixed by `seed`.
/// Nothing is claimed of the generator.
#[verifier::external_body]
pub(crate) fn seeded_rng(seed: u64) -> SmallRng {
    SmallRng::seed_from_u64(seed)
}

/// `SliceRandom::shuffle` on the cells: it only swaps entries, so the
/// cells afterwards are the cells before, in some order. Which order is not
/// claimed.
#[verifier::external_body]
pub(crate) fn shuffle_cells(cells: &mut Vec<usize>, rng: &mut SmallRng)
    ensures
        final(cells)@.to_multiset() == old(cells)@.to_multiset(),
{
    cells.shuffle(rng)
}

} // verus!
