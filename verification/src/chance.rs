//! Probabilities as exact rationals.
//!
//! Every probability parameter of the genetic operators is a [`Chance`]: a
//! ratio of two integers. A Bernoulli trial with such a probability is the
//! verified comparison of one bounded uniform draw against the numerator, so
//! the two certain cases are theorems: a zero numerator never fires, and a
//! full numerator always fires.

use vstd::prelude::*;
use crate::rng::rand_below;

verus! {

/// A probability `num / den`.
#[derive(Clone, Copy, Debug, PartialEq, Eq, Structural)]
pub struct Chance {
    pub num: u32,
    pub den: u32,
}

impl Chance {
    /// A meaningful probability: a positive denominator, and a value at most
    /// one.
    pub open spec fn valid(self) -> bool {
        0 < self.den && self.num <= self.den
    }

    /// The probability `num / den`.
    pub fn new(num: u32, den: u32) -> (r: Chance)
        requires
            0 < den,
            num <= den,
        ensures
            r.num == num,
            r.den == den,
    {
        Chance { num, den }
    }

    /// One Bernoulli trial: true with probability `num / den`. A zero
    /// numerator never fires; a numerator equal to the denominator always
    /// fires.
    pub fn sample(self, rng: &mut rand::rngs::ThreadRng) -> (r: bool)
        requires
            self.valid(),
        ensures
            self.num == 0 ==> !r,
            self.num == self.den ==> r,
    {
        let draw = rand_below(rng, self.den as usize);
        draw < self.num as usize
    }
}

} // verus!
