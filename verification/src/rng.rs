//! The random source: a xoshiro256++ generator from the `rand_xoshiro`
//! crate, reached through trusted declarations.  Callers seed it
//! themselves; nothing is promised of the drawn words.

use vstd::prelude::*;

verus! {

#[verifier::external_type_specification]
#[verifier::external_body]
pub struct ExXoshiro256PlusPlus(rand_xoshiro::Xoshiro256PlusPlus);

/// Relies on rand's `Rng::next_u64`: draws the generator's next word.
/// Nothing is promised of the value drawn.
#[verifier::external_body]
pub(crate) fn next_u64(rng: &mut rand_xoshiro::Xoshiro256PlusPlus) -> u64 {
    rand::Rng::next_u64(rng)
}

} // verus!
