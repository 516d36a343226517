//! The numbers drawn to order unmeasured peers.

use rand::{Rng, SeedableRng};
use rand_pcg::Pcg64Mcg;
use vstd::prelude::*;

verus! {

/// The number at a position of the sequence that a seed starts.
pub uninterp spec fn pcg_number(seed: u64, position: u128) -> u64;

/// `rand_pcg::Pcg64Mcg`, seeded by `seed_from_u64`, advanced by `advance` and read by `rand::Rng::gen`:
/// the number that a generator of that seed draws after as many others. It depends on the two alone
/// and is given a name.
#[verifier::external_body]
pub(crate) fn number_at(seed: u64, position: u128) -> (r: u64)
    ensures
        r == pcg_number(seed, position),
{
    let mut generator = Pcg64Mcg::seed_from_u64(seed);
    generator.advance(position);
    generator.gen::<u64>()
}

/// The position `count` after another, around the end of the range.
pub open spec fn position_after(position: u128, count: nat) -> u128 {
    ((position + count) % (u128::MAX + 1)) as u128
}

} // verus!
