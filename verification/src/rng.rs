//! The crate's source of randomness: a handle to rand's thread-local
//! generator, and a bounded integer draw. Every other random choice in the
//! crate (a Bernoulli trial, a fresh weight on the grid, a parent pick) is
//! verified code built on [`rand_below`].

use vstd::prelude::*;
use rand::RngExt;

verus! {

#[verifier::external_type_specification]
#[verifier::external_body]
pub struct ExThreadRng(rand::rngs::ThreadRng);

/// Relies on rand::rng: returns a handle to the thread-local generator.
/// Nothing is promised of the values it will produce.
#[verifier::external_body]
pub fn get_rng() -> rand::rngs::ThreadRng {
    rand::rng()
}

/// Relies on rand::RngExt::random_range over `0 .. n`: returns a uniformly
/// drawn integer below `n`. The range is never empty, so the call cannot
/// panic; nothing beyond the bound can be promised of a random draw.
#[verifier::external_body]
pub fn rand_below(rng: &mut rand::rngs::ThreadRng, n: usize) -> (r: usize)
    requires
        n >= 1,
    ensures
        r < n,
{
    rng.random_range(0..n)
}

} // verus!
