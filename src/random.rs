use vstd::prelude::*;

use rand::rngs::StdRng;
use rand::RngCore;

verus! {

#[verifier::external_type_specification]
#[verifier::external_body]
pub struct ExStdRng(StdRng);

/// Relies on rand's `RngCore::next_u32` for `StdRng`: the next 32 bits of the generator's
/// stream. Nothing is promised of the value.
#[verifier::external_body]
pub(crate) fn next_draw(rng: &mut StdRng) -> u32 {
    rng.next_u32()
}

} // verus!
