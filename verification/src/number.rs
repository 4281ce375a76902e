//! Divisibility and primality, the notions the whole library is stated in.

use vstd::prelude::*;

verus! {

/// `d` divides `n`: some integer multiple of `d` equals `n`.
pub open spec fn divides(d: int, n: int) -> bool {
    exists|k: int| n == #[trigger] (d * k)
}

/// `n` is prime: at least 2, and no integer in `[2, n)` divides it.
pub open spec fn is_prime(n: int) -> bool {
    n >= 2 && forall|d: int| 2 <= d < n ==> !divides(d, n)
}

/// A positive divisor of a positive number is no larger than it.
pub proof fn lemma_divisor_at_most(d: int, n: int)
    requires
        d >= 1,
        n >= 1,
        divides(d, n),
    ensures
        d <= n,
{
    let k = choose|k: int| n == #[trigger] (d * k);
    assert(d <= n) by (nonlinear_arith)
        requires n == d * k, d >= 1, n >= 1;
}

} // verus!
