//! The source of randomness: a seedable generator from the `rand` crate,
//! threaded explicitly through every operation that draws from it.

use vstd::prelude::*;

verus! {

#[verifier::external_type_specification]
#[verifier::external_body]
pub struct ExStdRng(rand::rngs::StdRng);

/// Relies on rand's `Rng::gen_range` on the integer range `0..bound`:
/// a uniform draw strictly below `bound`. The range must be non-empty,
/// since `gen_range` panics on an empty range.
#[verifier::external_body]
pub(crate) fn rand_below(rng: &mut rand::rngs::StdRng, bound: u64) -> (r: u64)
    requires
        bound > 0,
    ensures
        r < bound,
{
    rand::Rng::gen_range(rng, 0..bound)
}

/// Relies on rand's `Rng::gen` with the `Standard` distribution at `u8`:
/// a uniform random byte. Any byte may come back, so nothing is promised.
#[verifier::external_body]
pub(crate) fn rand_byte(rng: &mut rand::rngs::StdRng) -> (r: u8) {
    rand::Rng::gen(rng)
}

/// Relies on rand's `Rng::gen` with the `Standard` distribution at `bool`:
/// a fair coin flip. Either outcome may come back, so nothing is promised.
#[verifier::external_body]
pub(crate) fn rand_bool(rng: &mut rand::rngs::StdRng) -> (r: bool) {
    rand::Rng::gen(rng)
}

} // verus!
