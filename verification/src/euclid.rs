//! The Euclidean greatest common divisor.

use vstd::prelude::*;
use vstd::arithmetic::div_mod::lemma_fundamental_div_mod;
use crate::number::divides;

verus! {

/// The greatest common divisor by Euclid's recurrence: replace `(a, b)` with
/// `(b, a % b)` until the second component vanishes.
pub open spec fn gcd_rec(a: nat, b: nat) -> nat
    decreases b,
{
    if b == 0 {
        a
    } else {
        gcd_rec(b, a % b)
    }
}

/// The recurrence's value is positive and divides both arguments.
pub proof fn lemma_gcd_divides(a: nat, b: nat)
    requires
        a > 0 || b > 0,
    ensures
        gcd_rec(a, b) > 0,
        divides(gcd_rec(a, b) as int, a as int),
        divides(gcd_rec(a, b) as int, b as int),
    decreases b,
{
    if b == 0 {
        assert(a as int == a as int * 1);
        assert(0int == a as int * 0);
    } else {
        lemma_gcd_divides(b, a % b);
        let g = gcd_rec(b, a % b) as int;
        let k1 = choose|k: int| b as int == #[trigger] (g * k);
        let k2 = choose|k: int| (a % b) as int == #[trigger] (g * k);
        lemma_fundamental_div_mod(a as int, b as int);
        let q = a as int / b as int;
        assert(a as int == g * (k1 * q + k2)) by (nonlinear_arith)
            requires
                b as int == g * k1,
                (a % b) as int == g * k2,
                a as int == b as int * q + (a % b) as int;
    }
}

/// Every common divisor of the two arguments divides the recurrence's value.
pub proof fn lemma_common_divisor_divides_gcd(a: nat, b: nat, d: int)
    requires
        divides(d, a as int),
        divides(d, b as int),
    ensures
        divides(d, gcd_rec(a, b) as int),
    decreases b,
{
    if b != 0 {
        let ka = choose|k: int| a as int == #[trigger] (d * k);
        let kb = choose|k: int| b as int == #[trigger] (d * k);
        lemma_fundamental_div_mod(a as int, b as int);
        let q = a as int / b as int;
        assert((a % b) as int == d * (ka - kb * q)) by (nonlinear_arith)
            requires
                a as int == d * ka,
                b as int == d * kb,
                (a % b) as int == a as int - b as int * q;
        lemma_common_divisor_divides_gcd(b, a % b, d);
    }
}

/// Greatest common divisor of two non-negative integers, not both zero: the
/// result divides both, and no larger integer divides both.
pub fn gcd(a: u128, b: u128) -> (g: u128)
    requires
        a > 0 || b > 0,
    ensures
        g >= 1,
        g == gcd_rec(a as nat, b as nat),
        divides(g as int, a as int),
        divides(g as int, b as int),
        forall|d: int| 1 <= d && divides(d, a as int) && divides(d, b as int) ==> d <= g,
{
    let mut x = a;
    let mut y = b;
    while y != 0
        invariant
            x > 0 || y > 0,
            gcd_rec(x as nat, y as nat) == gcd_rec(a as nat, b as nat),
        decreases y,
    {
        let t = x % y;
        x = y;
        y = t;
    }
    proof {
        lemma_gcd_divides(a as nat, b as nat);
        assert forall|d: int| 1 <= d && divides(d, a as int) && divides(d, b as int)
            implies d <= x by {
            lemma_common_divisor_divides_gcd(a as nat, b as nat, d);
            let k = choose|k: int| x as int == #[trigger] (d * k);
            assert(d <= x) by (nonlinear_arith)
                requires x as int == d * k, d >= 1, x >= 1;
        }
    }
    x
}

} // verus!
