//! The stream of key material that the construction draws from.

use crate::shared::HashKey;
use rand::distributions::Standard;
use rand::rngs::SmallRng;
use rand::{Rng, SeedableRng};
use vstd::prelude::*;

verus! {

/// `rand`'s `SmallRng`, a small fast generator. It is carried from one draw to
/// the next; nothing is known of what it holds.
#[verifier::external_type_specification]
#[verifier::external_body]
pub struct ExSmallRng(SmallRng);

/// Starts a generator with `SmallRng::seed_from_u64` of the `rand` crate. One
/// seed gives one stream on a given platform and version of `rand`; which
/// stream that is, the contract leaves open.
#[verifier::external_body]
pub(crate) fn key_stream(seed: u64) -> (rng: SmallRng) {
    SmallRng::seed_from_u64(seed)
}

/// Draws the next key material with `Rng::sample` over `Standard`: three
/// 64-bit values. Nothing is claimed of them.
#[verifier::external_body]
pub(crate) fn next_key(rng: &mut SmallRng) -> (key: HashKey) {
    rng.sample(Standard)
}

} // verus!
