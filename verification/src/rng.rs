//! Randomness for the lighting dither: a small fast generator owned by the
//! caller, sampled through one trusted range primitive.

use vstd::prelude::*;

verus! {

#[verifier::external_type_specification]
#[verifier::external_body]
pub struct ExSmallRng(rand::rngs::SmallRng);

/// Relies on rand's `Rng::gen_range` over an integer half-open range: the
/// sample lies in `[lo, hi)`, and the call panics exactly on an empty
/// range, which the precondition rules out. Nothing further is assumed of
/// the value.
#[verifier::external_body]
pub fn rand_in_range(rng: &mut rand::rngs::SmallRng, lo: i64, hi: i64) -> (r: i64)
    requires
        lo < hi,
    ensures
        lo <= r < hi,
{
    rand::Rng::gen_range(rng, lo..hi)
}

} // verus!
