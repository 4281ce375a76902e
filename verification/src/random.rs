//! The source of random integers the growth algorithm draws from.

use vstd::prelude::*;
use rand::Rng;

verus! {

/// A source of uniformly distributed integers in a closed range. The
/// algorithm depends on this capability alone, so a deterministic scripted
/// source can stand in for the thread-local generator.
pub trait RandomRangeSource {
    /// Draws one value from `[lo, hi]`, both ends included.
    fn sample(&mut self, lo: u128, hi: u128) -> (r: u128)
        requires
            lo <= hi,
        ensures
            lo <= r <= hi,
    ;
}

/// Relies on rand's `Rng::gen_range` over a `thread_rng`: on a non-empty
/// inclusive range it returns a value inside that range and does not panic.
#[verifier::external_body]
fn gen_random_num(from: u128, to: u128) -> (r: u128)
    requires
        from <= to,
    ensures
        from <= r <= to,
{
    rand::thread_rng().gen_range(from..=to)
}

/// The thread-local generator of the `rand` crate, behind the sampling trait.
pub struct ThreadRngSource;

impl RandomRangeSource for ThreadRngSource {
    fn sample(&mut self, lo: u128, hi: u128) -> (r: u128) {
        gen_random_num(lo, hi)
    }
}

} // verus!
