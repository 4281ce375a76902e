use prime_growth::sieve::sieve_of_eratosthenes;

#[test]
fn sieve_below_thirty() {
    assert_eq!(
        sieve_of_eratosthenes(30),
        vec![2, 3, 5, 7, 11, 13, 17, 19, 23, 29]
    );
}

#[test]
fn sieve_excludes_the_bound_itself() {
    // Primes strictly below the bound: 29 is out at 29, in at 30.
    assert_eq!(sieve_of_eratosthenes(29).last(), Some(&23));
    assert_eq!(sieve_of_eratosthenes(30).last(), Some(&29));
}

#[test]
fn sieve_with_tiny_bounds_is_empty() {
    assert!(sieve_of_eratosthenes(0).is_empty());
    assert!(sieve_of_eratosthenes(1).is_empty());
    assert!(sieve_of_eratosthenes(2).is_empty());
    assert_eq!(sieve_of_eratosthenes(3), vec![2]);
}

#[test]
fn sieve_below_one_thousand() {
    let primes = sieve_of_eratosthenes(1000);
    assert_eq!(primes.len(), 168);
    assert_eq!(primes.first(), Some(&2));
    assert_eq!(primes.last(), Some(&997));
}

#[test]
fn sieve_agrees_with_trial_division() {
    let primes = sieve_of_eratosthenes(500);
    let mut expected: Vec<u128> = Vec::new();
    for n in 2u128..500 {
        let mut is_prime = true;
        let mut d = 2u128;
        while d < n {
            if n % d == 0 {
                is_prime = false;
                break;
            }
            d += 1;
        }
        if is_prime {
            expected.push(n);
        }
    }
    assert_eq!(sieve_of_eratosthenes(500), expected);
}
