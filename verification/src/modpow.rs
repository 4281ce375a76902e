//! Binary (square-and-multiply) modular exponentiation.

use vstd::prelude::*;
use vstd::arithmetic::power::{
    pow, lemma_pow_adds, lemma_pow_multiplies, lemma_pow_mod_noop, lemma_square_is_pow2,
};
use vstd::arithmetic::div_mod::{lemma_mul_mod_noop_general, lemma_small_mod};

verus! {

/// The largest modulus the exponentiator accepts: with the modulus at most
/// `2^64`, every intermediate product of two reduced values fits in `u128`.
pub const MODULUS_LIMIT: u128 = 0x1_0000_0000_0000_0000;

/// A power of a multiple of the modulus is itself a multiple of the modulus.
proof fn lemma_pow_of_multiple_vanishes(x: int, y: nat, p: int)
    requires
        p > 0,
        x % p == 0,
        y > 0,
    ensures
        pow(x, y) % p == 0,
    decreases y,
{
    reveal(pow);
    if y == 1 {
        assert(pow(x, 1) == x * pow(x, 0));
        assert(pow(x, 0) == 1);
    } else {
        lemma_pow_of_multiple_vanishes(x, (y - 1) as nat, p);
        assert(pow(x, y) == x * pow(x, (y - 1) as nat));
        lemma_mul_mod_noop_general(x, pow(x, (y - 1) as nat), p);
        assert((x % p) * pow(x, (y - 1) as nat) == 0);
    }
}

/// `base^exponent mod modulus` by repeated squaring, with every intermediate
/// product reduced before it can overflow.
///
/// The routine keeps the classical convention that a base congruent to zero
/// yields zero even for a zero exponent, where the mathematical convention
/// would give `1 mod modulus`. On every other input the result is exactly
/// `pow(base, exponent) % modulus`.
pub fn power_modulus(x: u128, y: u128, p: u128) -> (r: u128)
    requires
        p >= 1,
        p <= MODULUS_LIMIT,
    ensures
        r < p,
        x % p == 0 ==> r == 0,
        x % p != 0 || y > 0 ==> r as int == pow(x as int, y as nat) % (p as int),
{
    let mut b = x % p;
    if b == 0 {
        proof {
            if y > 0 {
                lemma_pow_of_multiple_vanishes(x as int, y as nat, p as int);
            }
        }
        return 0;
    }
    let mut e = y;
    let mut res: u128 = 1;
    proof {
        lemma_pow_mod_noop(x as int, y as nat, p as int);
        lemma_small_mod(1nat, p as nat);
    }
    while e > 0
        invariant
            1 <= p <= MODULUS_LIMIT,
            b < p,
            res < p,
            (res as int * pow(b as int, e as nat)) % (p as int)
                == pow(x as int, y as nat) % (p as int),
        decreases e,
    {
        let ghost res0 = res as int;
        let ghost b0 = b as int;
        let ghost e0 = e as nat;
        let ghost pi = p as int;
        if e % 2 == 1 {
            proof {
                assert(res * b < MODULUS_LIMIT * MODULUS_LIMIT) by (nonlinear_arith)
                    requires res < p, b < p, p <= MODULUS_LIMIT;
            }
            res = (res * b) % p;
        }
        e = e / 2;
        proof {
            assert(b * b < MODULUS_LIMIT * MODULUS_LIMIT) by (nonlinear_arith)
                requires b < p, p <= MODULUS_LIMIT;
        }
        b = (b * b) % p;
        proof {
            reveal(pow);
            let t = (e0 % 2) as nat;
            let half = (e0 / 2) as nat;
            assert(e0 == 2 * half + t);
            // pow(b0, e0) == pow(b0, t) * pow(b0 * b0, half)
            lemma_pow_adds(b0, t, (2 * half) as nat);
            lemma_pow_multiplies(b0, 2, half);
            lemma_square_is_pow2(b0);
            assert(pow(b0, e0) == pow(b0, t) * pow(b0 * b0, half));
            // reduce the square before exponentiation
            lemma_pow_mod_noop(b0 * b0, half, pi);
            assert(b as int == (b0 * b0) % pi);
            // fold the two reductions into the invariant's product
            lemma_mul_mod_noop_general(res as int, pow(b as int, half), pi);
            lemma_mul_mod_noop_general(res0 * pow(b0, t), pow(b0 * b0, half), pi);
            if t == 1 {
                assert(pow(b0, 1) == b0 * pow(b0, 0));
                assert(pow(b0, 0) == 1);
                lemma_mul_mod_noop_general(res0 * b0, pow(b0 * b0, half), pi);
                assert(res as int == (res0 * b0) % pi);
                assert((res as int * pow(b as int, half)) % pi
                    == ((res0 * b0) * pow(b0 * b0, half)) % pi) by {
                    lemma_mul_mod_noop_general(res0 * b0, pow((b0 * b0) % pi, half), pi);
                    lemma_pow_mod_noop(b0 * b0, half, pi);
                    lemma_mul_mod_noop_general(res0 * b0, pow(b0 * b0, half), pi);
                }
                assert((res0 * b0) * pow(b0 * b0, half) == res0 * pow(b0, e0)) by (nonlinear_arith)
                    requires pow(b0, e0) == b0 * pow(b0 * b0, half);
            } else {
                assert(pow(b0, 0) == 1);
                assert(pow(b0, e0) == pow(b0 * b0, half));
                assert((res as int * pow(b as int, half)) % pi
                    == (res0 * pow(b0 * b0, half)) % pi) by {
                    lemma_mul_mod_noop_general(res0, pow((b0 * b0) % pi, half), pi);
                    lemma_pow_mod_noop(b0 * b0, half, pi);
                    lemma_mul_mod_noop_general(res0, pow(b0 * b0, half), pi);
                }
            }
        }
    }
    proof {
        reveal(pow);
        assert(pow(b as int, 0) == 1);
        lemma_small_mod(res as nat, p as nat);
    }
    res
}

} // verus!
