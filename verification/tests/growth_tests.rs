use prime_growth::certify::{is_prime_using_pocklington_criteria, CertificationResult};
use prime_growth::grow::{grow_prime_number, next_candidate, survives_trial_division};
use prime_growth::random::{RandomRangeSource, ThreadRngSource};
use prime_growth::sieve::sieve_of_eratosthenes;

/// A deterministic source that replays a fixed script of draws.
struct ScriptedSource {
    draws: Vec<u128>,
    next: usize,
}

impl ScriptedSource {
    fn new(draws: &[u128]) -> Self {
        ScriptedSource { draws: draws.to_vec(), next: 0 }
    }
}

impl RandomRangeSource for ScriptedSource {
    fn sample(&mut self, lo: u128, hi: u128) -> u128 {
        let v = self.draws[self.next];
        self.next += 1;
        assert!(lo <= v && v <= hi, "scripted draw out of range");
        v
    }
}

#[test]
fn certify_known_small_primes() {
    // Hand-computed factors r of n - 1 with (r + 1)^2 > n, and witnesses
    // that decide on the first draw.
    let cases: [(u128, u128, u128); 7] = [
        (5, 2, 2),
        (7, 2, 2),
        (11, 5, 2),
        (13, 3, 2),
        (17, 4, 2),
        (19, 6, 2),
        (23, 11, 5),
    ];
    for (n, r, a) in cases {
        let mut src = ScriptedSource::new(&[a]);
        assert_eq!(
            is_prime_using_pocklington_criteria(&mut src, r, n, 10),
            CertificationResult::Prime,
            "expected a prime verdict for {}",
            n
        );
    }
}

#[test]
fn certify_known_composites() {
    let mut src = ScriptedSource::new(&[2]);
    assert_eq!(
        is_prime_using_pocklington_criteria(&mut src, 4, 9, 10),
        CertificationResult::Composite
    );
    let mut src = ScriptedSource::new(&[2]);
    assert_eq!(
        is_prime_using_pocklington_criteria(&mut src, 20, 221, 10),
        CertificationResult::Composite
    );
}

#[test]
fn certify_exhausted_budget_is_inconclusive() {
    // With r = n - 1 every Fermat-passing witness degenerates, so the budget
    // runs out without a verdict.
    let mut src = ScriptedSource::new(&[2, 3, 2]);
    assert_eq!(
        is_prime_using_pocklington_criteria(&mut src, 4, 5, 3),
        CertificationResult::Inconclusive
    );
}

#[test]
fn trial_division_filter_is_exact() {
    let primes = sieve_of_eratosthenes(1000);
    // 1988019 = 1994 * 997 + 1 is divisible by 3; the filter rejects it.
    assert!(!survives_trial_division(1988019, &primes));
    assert_eq!(1988019 % 3, 0);
    // 2001977 survives: no prime below 1000 divides it.
    assert!(survives_trial_division(2001977, &primes));
    for q in &primes {
        assert_ne!(2001977 % q, 0);
    }
}

#[test]
fn next_candidate_survives_the_filter() {
    let primes = sieve_of_eratosthenes(1000);
    // First draw builds 1994 * 997 + 1 = 1988019, which the filter rejects;
    // the second builds 2008 * 997 + 1 = 2001977, which survives.
    let mut src = ScriptedSource::new(&[997, 1004]);
    let c = next_candidate(&mut src, 997, &primes, 10).expect("a candidate");
    assert_eq!(c.p, 997);
    assert_eq!(c.r, 2008);
    assert_eq!(c.n, 2001977);
    assert_eq!(c.n, c.r * c.p + 1);
    assert_eq!(c.r % 2, 0);
    assert!(survives_trial_division(c.n, &primes));
}

#[test]
fn next_candidate_exhaustion_is_none() {
    let primes = sieve_of_eratosthenes(1000);
    // Every scripted draw builds the filter-rejected candidate.
    let mut src = ScriptedSource::new(&[997, 997, 997]);
    assert_eq!(next_candidate(&mut src, 997, &primes, 3), None);
}

#[test]
fn grow_prime_number_scripted_scenario() {
    let primes = sieve_of_eratosthenes(1000);
    // Scripted run from the seed prime 997:
    //   draw 997  -> candidate 1988019, rejected by trial division;
    //   draw 1043 -> candidate 2079743, survives, witness 2 shows composite;
    //   draw 1004 -> candidate 2001977, survives, witness 2 certifies prime.
    let mut src = ScriptedSource::new(&[997, 1043, 2, 1004, 2]);
    let grown = grow_prime_number(&mut src, 997, &primes, 10);
    assert_eq!(grown, Some(2001977));
    assert_eq!(2001977u128, 2008 * 997 + 1);

    // The certifier independently confirms the scripted result.
    let mut src = ScriptedSource::new(&[2]);
    assert_eq!(
        is_prime_using_pocklington_criteria(&mut src, 2008, 2001977, 10),
        CertificationResult::Prime
    );
}

#[test]
fn grow_prime_number_exhaustion_is_none() {
    let primes = sieve_of_eratosthenes(1000);
    let mut src = ScriptedSource::new(&[997, 997]);
    assert_eq!(grow_prime_number(&mut src, 997, &primes, 0), None);
}

#[test]
fn grown_prime_is_strictly_larger_than_the_seed() {
    let primes = sieve_of_eratosthenes(1000);
    let mut src = ScriptedSource::new(&[997, 1043, 2, 1004, 2]);
    let grown = grow_prime_number(&mut src, 997, &primes, 10).expect("a grown prime");
    assert!(grown > 997);
}

#[test]
fn grow_prime_number_with_the_thread_rng() {
    let primes = sieve_of_eratosthenes(1000);
    let mut src = ThreadRngSource;
    let grown = grow_prime_number(&mut src, 997, &primes, 100_000)
        .expect("growth from a small seed should converge well within the budget");
    assert!(grown > 997);
    // The accepted number has the promised shape n = r * 997 + 1.
    assert_eq!((grown - 1) % 997, 0);
    let r = (grown - 1) / 997;
    assert_eq!(r % 2, 0);
    assert!(2 * 997 <= r && r <= 4 * 997);
    assert!(survives_trial_division(grown, &primes));
    // An independent certification run confirms the verdict.
    assert_eq!(
        is_prime_using_pocklington_criteria(&mut src, r, grown, 100_000),
        CertificationResult::Prime
    );
}
