//! Primality certification by Pocklington's criterion.

use vstd::prelude::*;
use vstd::arithmetic::power::pow;
use crate::number::{divides, lemma_divisor_at_most};
use crate::euclid::{gcd, gcd_rec, lemma_gcd_divides};
use crate::modpow::{power_modulus, MODULUS_LIMIT};
use crate::random::RandomRangeSource;

verus! {

/// The verdict of one certification run.
#[derive(Clone, Copy, Debug, PartialEq, Eq, Structural)]
pub enum CertificationResult {
    /// A witness satisfied Pocklington's criterion: `n` is prime.
    Prime,
    /// A witness refuted primality: `n` is composite.
    Composite,
    /// Every drawn witness was uninformative within the attempt budget.
    Inconclusive,
}

/// Fermat's condition for witness `a`: `a^(n-1) ≡ 1 (mod n)`.
pub open spec fn fermat_passes(a: int, n: int) -> bool {
    pow(a, (n - 1) as nat) % n == 1
}

/// The gcd Pocklington's criterion inspects: `gcd((a^r - 1) mod n, n)`.
pub open spec fn pocklington_gcd(a: int, r: int, n: int) -> nat {
    gcd_rec(((pow(a, r as nat) % n + n - 1) % n) as nat, n as nat)
}

/// Witness `a` certifies `n` prime: Fermat's condition holds and the
/// Pocklington gcd is 1.
pub open spec fn witness_certifies_prime(a: int, r: int, n: int) -> bool {
    2 <= a <= n - 1 && fermat_passes(a, n) && pocklington_gcd(a, r, n) == 1
}

/// Witness `a` shows `n` composite: Fermat's condition fails, or the
/// Pocklington gcd is a nontrivial factor of `n`.
pub open spec fn witness_shows_composite(a: int, r: int, n: int) -> bool {
    2 <= a <= n - 1 && (!fermat_passes(a, n) || 1 < pocklington_gcd(a, r, n) < n)
}

/// Witness `a` decides nothing: Fermat's condition holds but the Pocklington
/// gcd degenerates to `n` itself.
pub open spec fn witness_is_uninformative(a: int, r: int, n: int) -> bool {
    2 <= a <= n - 1 && fermat_passes(a, n) && pocklington_gcd(a, r, n) == n
}

/// One certification attempt with a fixed witness: exactly one of the three
/// verdicts holds of `a`, and the returned one is it.
pub fn certify_with_witness(a: u128, r: u128, n: u128) -> (res: CertificationResult)
    requires
        n > 2,
        n <= MODULUS_LIMIT,
        2 <= a <= n - 1,
        r >= 1,
    ensures
        res == CertificationResult::Prime
            <==> witness_certifies_prime(a as int, r as int, n as int),
        res == CertificationResult::Composite
            <==> witness_shows_composite(a as int, r as int, n as int),
        res == CertificationResult::Inconclusive
            <==> witness_is_uninformative(a as int, r as int, n as int),
{
    let f = power_modulus(a, n - 1, n);
    if f != 1 {
        return CertificationResult::Composite;
    }
    let x = power_modulus(a, r, n);
    let t = (x + (n - 1)) % n;
    let d = gcd(t, n);
    proof {
        assert(d as nat == pocklington_gcd(a as int, r as int, n as int));
        lemma_gcd_divides(t as nat, n as nat);
        lemma_divisor_at_most(d as int, n as int);
    }
    if d == n {
        CertificationResult::Inconclusive
    } else if d == 1 {
        CertificationResult::Prime
    } else {
        CertificationResult::Composite
    }
}

/// Certification of `n` with a known factor `r` of `n - 1` that satisfies the
/// Pocklington size condition `(r + 1)^2 > n`: witnesses are drawn at random
/// until one decides, or the attempt budget runs out.
///
/// A decisive verdict is definitive for the drawn witness: `Prime` and
/// `Composite` each come with a witness whose behaviour is pinned down by the
/// spec predicates. `Inconclusive` only reports an exhausted budget and must
/// never be read as either verdict.
pub fn is_prime_using_pocklington_criteria<S: RandomRangeSource>(
    rng: &mut S,
    r: u128,
    n: u128,
    max_attempts: u64,
) -> (res: CertificationResult)
    requires
        n > 2,
        n % 2 == 1,
        n <= MODULUS_LIMIT,
        r >= 2,
        divides(r as int, n as int - 1),
        (r as int + 1) * (r as int + 1) > n as int,
    ensures
        res == CertificationResult::Prime
            ==> exists|a: int| witness_certifies_prime(a, r as int, n as int),
        res == CertificationResult::Composite
            ==> exists|a: int| witness_shows_composite(a, r as int, n as int),
{
    let mut attempts: u64 = 0;
    while attempts < max_attempts
        invariant
            n > 2,
            n <= MODULUS_LIMIT,
            r >= 2,
        decreases max_attempts - attempts,
    {
        let a = rng.sample(2, n - 1);
        let verdict = certify_with_witness(a, r, n);
        match verdict {
            CertificationResult::Inconclusive => {
                attempts += 1;
            },
            decided => {
                proof {
                    if decided == CertificationResult::Prime {
                        assert(witness_certifies_prime(a as int, r as int, n as int));
                    }
                    if decided == CertificationResult::Composite {
                        assert(witness_shows_composite(a as int, r as int, n as int));
                    }
                }
                return decided;
            },
        }
    }
    CertificationResult::Inconclusive
}

} // verus!
