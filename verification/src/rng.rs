//! The randomness the simulation draws on, behind trusted wrappers: the
//! contracts state only what holds of every outcome (ranges, permutation),
//! never which value comes back.
use vstd::prelude::*;

use crate::ids::PeerId;

verus! {

#[verifier::external_type_specification]
#[verifier::external_body]
pub struct ExStdRng(rand::rngs::StdRng);

/// One million; probabilities are carried as parts per million.
pub const PPM_SCALE: u32 = 1_000_000;

/// Relies on rand::Rng::gen_range over the range 0..n: returns a value of
/// the range, and panics only when the range is empty.
#[verifier::external_body]
pub fn gen_below(rng: &mut rand::rngs::StdRng, n: usize) -> (r: usize)
    requires
        n > 0,
    ensures
        r < n,
{
    rand::Rng::gen_range(rng, 0..n)
}

/// Relies on rand::seq::SliceRandom::shuffle: permutes the slice in place
/// (Fisher-Yates), so the elements are kept, only their order changes.
#[verifier::external_body]
pub fn shuffle_peers(rng: &mut rand::rngs::StdRng, peers: &mut Vec<PeerId>)
    ensures
        final(peers)@.to_multiset() == old(peers)@.to_multiset(),
{
    rand::seq::SliceRandom::shuffle(peers.as_mut_slice(), rng);
}

} // verus!
