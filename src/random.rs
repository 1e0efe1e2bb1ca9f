//! The random draws the simulation makes, from a seeded ChaCha8 stream.

use rand::Rng;
use rand_chacha::ChaCha8Rng;
use vstd::prelude::*;

verus! {

/// The seeded pseudorandom stream; nothing of its state is modelled.
#[verifier::external_type_specification]
#[verifier::external_body]
pub struct ExChaCha8Rng(ChaCha8Rng);

/// Relies on rand's `Rng::gen_range` over the half-open range `0..n`, which
/// returns a value of that range and panics only when it is empty.
#[verifier::external_body]
pub(crate) fn draw_below(rng: &mut ChaCha8Rng, n: usize) -> (r: usize)
    requires
        n > 0,
    ensures
        r < n,
{
    rng.gen_range(0..n)
}

/// Relies on rand's `Rng::gen_ratio`, which is `true` with probability
/// `numerator / denominator`: always when the two are equal, never when the
/// numerator is zero; it panics only when `numerator > denominator` or the
/// denominator is zero.
#[verifier::external_body]
pub(crate) fn draw_ratio(rng: &mut ChaCha8Rng, numerator: u32, denominator: u32) -> (r: bool)
    requires
        0 < denominator,
        numerator <= denominator,
    ensures
        numerator == denominator ==> r,
        numerator == 0 ==> !r,
{
    rng.gen_ratio(numerator, denominator)
}

} // verus!
