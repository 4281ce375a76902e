//! Growing a certified prime: candidate construction, the trial-division
//! filter, and the retry loop that drives certification.

use vstd::prelude::*;
use vstd::arithmetic::div_mod::lemma_fundamental_div_mod_converse;
use crate::certify::{
    is_prime_using_pocklington_criteria, witness_certifies_prime, CertificationResult,
};
use crate::modpow::MODULUS_LIMIT;
use crate::random::RandomRangeSource;

verus! {

/// The largest seed prime the grower accepts: every candidate built from a
/// seed at most `2^31 - 1` stays within the exponentiator's modulus limit.
pub const SEED_LIMIT: u128 = 0x7fff_ffff;

/// A candidate for the next prime: `n = r * p + 1` for an even multiplier
/// `r` drawn from `[2p, 4p]`, which makes `n` odd, larger than `p`, and
/// equipped with the factor `r` of `n - 1` that certification needs.
#[derive(Clone, Copy, Debug, PartialEq, Eq, Structural)]
pub struct Candidate {
    /// The number to be certified.
    pub n: u128,
    /// The even multiplier: a known factor of `n - 1`.
    pub r: u128,
    /// The certified prime the candidate was built from.
    pub p: u128,
}

impl Candidate {
    /// The construction invariant of a candidate.
    pub open spec fn wf(self) -> bool {
        2 <= self.p
        && self.r % 2 == 0
        && 2 * self.p <= self.r <= 4 * self.p
        && self.n == self.r * self.p + 1
    }
}

/// No prime of the list divides `n`.
pub open spec fn passes_trial_division(n: int, primes: Seq<u128>) -> bool {
    forall|k: int| 0 <= k < primes.len() ==> n % (#[trigger] primes[k] as int) != 0
}

/// Every entry of the list is at least 2, as a list of primes is.
pub open spec fn all_at_least_two(primes: Seq<u128>) -> bool {
    forall|k: int| 0 <= k < primes.len() ==> #[trigger] primes[k] >= 2
}

/// The trial-division filter: true exactly when no prime of the list
/// divides `n`.
pub fn survives_trial_division(n: u128, small_primes: &Vec<u128>) -> (b: bool)
    requires
        all_at_least_two(small_primes@),
    ensures
        b <==> passes_trial_division(n as int, small_primes@),
{
    let mut k: usize = 0;
    while k < small_primes.len()
        invariant
            all_at_least_two(small_primes@),
            k <= small_primes@.len(),
            forall|j: int| 0 <= j < k ==> n as int % (#[trigger] small_primes@[j] as int) != 0,
        decreases small_primes@.len() - k,
    {
        if n % small_primes[k] == 0 {
            return false;
        }
        k += 1;
    }
    true
}

/// Draws even multipliers and keeps the first candidate that the
/// trial-division filter lets through; gives up after the attempt budget.
pub fn next_candidate<S: RandomRangeSource>(
    rng: &mut S,
    p: u128,
    small_primes: &Vec<u128>,
    max_attempts: u64,
) -> (res: Option<Candidate>)
    requires
        2 <= p <= SEED_LIMIT,
        all_at_least_two(small_primes@),
    ensures
        res matches Some(c) ==> c.wf() && c.p == p && c.n <= MODULUS_LIMIT
            && passes_trial_division(c.n as int, small_primes@),
{
    let mut attempts: u64 = 0;
    while attempts < max_attempts
        invariant
            2 <= p <= SEED_LIMIT,
            all_at_least_two(small_primes@),
        decreases max_attempts - attempts,
    {
        let half = rng.sample(p, 2 * p);
        let r = 2 * half;
        proof {
            assert(r as int * p as int + 1 <= MODULUS_LIMIT) by (nonlinear_arith)
                requires
                    r as int <= 4 * p as int,
                    2 <= p as int <= SEED_LIMIT as int,
                    SEED_LIMIT == 0x7fff_ffffu128,
                    MODULUS_LIMIT == 0x1_0000_0000_0000_0000u128;
        }
        let n = r * p + 1;
        if survives_trial_division(n, small_primes) {
            return Some(Candidate { n, r, p });
        }
        attempts += 1;
    }
    None
}

/// `n` is an accepted growth of the seed `p`: it was built as `r * p + 1`
/// from an even multiplier in `[2p, 4p]`, no listed prime divides it, and
/// some witness certified it prime by Pocklington's criterion.
pub open spec fn accepted_growth(p: int, primes: Seq<u128>, n: int, r: int) -> bool {
    r % 2 == 0
    && 2 * p <= r <= 4 * p
    && n == r * p + 1
    && passes_trial_division(n, primes)
    && exists|a: int| witness_certifies_prime(a, r, n)
}

/// Grows the seed prime once: candidates are generated and filtered, then
/// certified, until one is accepted or the attempt budget runs out. An
/// accepted number is strictly larger than the seed and carries a
/// Pocklington certificate; exhaustion is reported as `None`, never as a
/// claimed prime.
pub fn grow_prime_number<S: RandomRangeSource>(
    rng: &mut S,
    initial_prime: u128,
    small_primes: &Vec<u128>,
    max_attempts: u64,
) -> (res: Option<u128>)
    requires
        2 <= initial_prime <= SEED_LIMIT,
        all_at_least_two(small_primes@),
    ensures
        res matches Some(n) ==> n > initial_prime
            && exists|r: int| accepted_growth(initial_prime as int, small_primes@, n as int, r),
{
    let mut attempts: u64 = 0;
    while attempts < max_attempts
        invariant
            2 <= initial_prime <= SEED_LIMIT,
            all_at_least_two(small_primes@),
        decreases max_attempts - attempts,
    {
        let candidate = match next_candidate(rng, initial_prime, small_primes, max_attempts) {
            None => {
                return None;
            },
            Some(c) => c,
        };
        let ghost pi = initial_prime as int;
        let ghost ri = candidate.r as int;
        let ghost ni = candidate.n as int;
        proof {
            assert(ni > 2 && ni > pi && (ri + 1) * (ri + 1) > ni) by (nonlinear_arith)
                requires ni == ri * pi + 1, 2 * pi <= ri <= 4 * pi, pi >= 2;
            assert(ri % 2 == 0 && ni == ri * pi + 1 ==> ni % 2 == 1) by {
                if ri % 2 == 0 {
                    assert(ni == 2 * ((ri / 2) * pi) + 1) by (nonlinear_arith)
                        requires ri == 2 * (ri / 2), ni == ri * pi + 1;
                    lemma_fundamental_div_mod_converse(ni, 2, (ri / 2) * pi, 1);
                }
            }
            assert(ni - 1 == ri * pi);
            assert(crate::number::divides(ri, ni - 1)) by {
                assert(ni - 1 == ri * pi);
            }
        }
        match is_prime_using_pocklington_criteria(rng, candidate.r, candidate.n, max_attempts) {
            CertificationResult::Prime => {
                proof {
                    assert(accepted_growth(pi, small_primes@, ni, ri));
                }
                return Some(candidate.n);
            },
            _ => {
                attempts += 1;
            },
        }
    }
    None
}

} // verus!
