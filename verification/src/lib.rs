//! Growing a certified prime from a small seed: a sieve for the small
//! primes, binary modular exponentiation, the Euclidean gcd, and a
//! certification loop built on Pocklington's criterion, each with a proved
//! contract. Randomness enters only through the `random::RandomRangeSource`
//! capability, so every decision taken on a drawn value is verified for
//! every value the source can return.

pub mod number;
pub mod euclid;
pub mod modpow;
pub mod sieve;
pub mod random;
pub mod certify;
pub mod grow;
