//! The sieve of Eratosthenes: every prime below a bound, in ascending order.

use vstd::prelude::*;
use vstd::arithmetic::div_mod::{
    lemma_fundamental_div_mod, lemma_mod_add_multiples_vanish, lemma_mod_multiples_basic,
};
use crate::number::{divides, is_prime};

verus! {

/// `t` is a product of two factors at least 2, the first of them below `c`.
spec fn has_factor_below(t: int, c: int) -> bool {
    exists|d: int, m: int| 2 <= d < c && 2 <= m && t == #[trigger] (d * m)
}

/// `t` is `c` times some factor of at least 2.
spec fn is_proper_multiple_of(t: int, c: int) -> bool {
    exists|m: int| 2 <= m && t == #[trigger] (c * m)
}

/// Once every factor below `c >= t` has been tried, having such a factor is
/// exactly being composite.
proof fn lemma_factor_character(t: int, c: int)
    requires
        2 <= t,
        t <= c,
    ensures
        has_factor_below(t, c) <==> !is_prime(t),
{
    if has_factor_below(t, c) {
        let (d, m) = choose|d: int, m: int| 2 <= d < c && 2 <= m && t == #[trigger] (d * m);
        assert(2 <= d && d < t) by (nonlinear_arith)
            requires t == d * m, 2 <= d, 2 <= m;
        assert(divides(d, t)) by {
            assert(t == d * m);
        }
    }
    if !is_prime(t) {
        let d = choose|d: int| 2 <= d < t && divides(d, t);
        let m = choose|k: int| t == #[trigger] (d * k);
        assert(2 <= m) by (nonlinear_arith)
            requires t == d * m, 2 <= d, d < t;
        assert(t == d * m && 2 <= d < c && 2 <= m);
    }
}

/// Every proper multiple of `c` is at least `2 * c`.
proof fn lemma_proper_multiple_lower_bound(t: int, c: int)
    requires
        c >= 1,
        is_proper_multiple_of(t, c),
    ensures
        t >= 2 * c,
{
    let m = choose|m: int| 2 <= m && t == #[trigger] (c * m);
    assert(t >= 2 * c) by (nonlinear_arith)
        requires t == c * m, 2 <= m, c >= 1;
}

/// Proper multiples of `c` above a multiple `j` of `c` lie at least `c` beyond it.
proof fn lemma_multiple_gap(t: int, c: int, j: int)
    requires
        c >= 1,
        j >= 0,
        j % c == 0,
        is_proper_multiple_of(t, c),
        t > j,
    ensures
        t >= j + c,
{
    let m = choose|m: int| 2 <= m && t == #[trigger] (c * m);
    lemma_fundamental_div_mod(j, c);
    assert(t >= j + c) by (nonlinear_arith)
        requires t == c * m, j == c * (j / c), t > j, c >= 1;
}

/// All primes strictly below `upto`, in strictly ascending order: the result
/// holds every prime in `[2, upto)` and nothing else.
pub fn sieve_of_eratosthenes(upto: usize) -> (r: Vec<u128>)
    requires
        upto < usize::MAX / 2,
    ensures
        forall|k: int| 0 <= k < r@.len()
            ==> 2 <= #[trigger] r@[k] && r@[k] < upto && is_prime(r@[k] as int),
        forall|k1: int, k2: int| 0 <= k1 < k2 < r@.len() ==> r@[k1] < r@[k2],
        forall|t: int| 2 <= t < upto && #[trigger] is_prime(t)
            ==> exists|k: int| 0 <= k < r@.len() && r@[k] == t,
{
    let mut flags: Vec<bool> = Vec::new();
    let mut i: usize = 0;
    while i <= upto
        invariant
            upto < usize::MAX / 2,
            flags@.len() == i,
            i <= upto + 1,
            forall|t: int| 0 <= t < i ==> flags@[t] == true,
        decreases upto + 1 - i,
    {
        flags.push(true);
        i += 1;
    }
    let mut c: usize = 2;
    proof {
        assert forall|t: int| 0 <= t <= upto implies
            !(t < upto && has_factor_below(t, 2)) by {
            if has_factor_below(t, 2) {
                let (d, m) = choose|d: int, m: int|
                    2 <= d < 2 && 2 <= m && t == #[trigger] (d * m);
            }
        }
    }
    while c < upto
        invariant
            flags@.len() == upto + 1,
            upto < usize::MAX / 2,
            2 <= c,
            forall|t: int| 0 <= t <= upto
                ==> ((#[trigger] flags@[t]) == false <==> t < upto && has_factor_below(t, c as int)),
        decreases upto - c,
    {
        let ghost ci = c as int;
        let mut j: usize = 2 * c;
        proof {
            lemma_mod_multiples_basic(2, ci);
            assert(j % c == 0);
            assert forall|t: int| 0 <= t <= upto implies
                (flags@[t] == false <==> t < upto
                    && (has_factor_below(t, ci)
                        || (is_proper_multiple_of(t, ci) && t < j))) by {
                assert(flags@[t] == false <==> t < upto && has_factor_below(t, c as int));
                if is_proper_multiple_of(t, ci) {
                    lemma_proper_multiple_lower_bound(t, ci);
                    assert(t >= 2 * ci);
                }
            }
        }
        while j < upto
            invariant
                flags@.len() == upto + 1,
                upto < usize::MAX / 2,
                2 <= c < upto,
                ci == c as int,
                2 * c <= j,
                j % c == 0,
                forall|t: int| 0 <= t <= upto
                    ==> ((#[trigger] flags@[t]) == false <==> t < upto
                        && (has_factor_below(t, ci) || (is_proper_multiple_of(t, ci) && t < j))),
            decreases upto + c - j,
        {
            let ghost flags0 = flags@;
            let ghost ji = j as int;
            flags.set(j, false);
            j += c;
            proof {
                lemma_mod_add_multiples_vanish(ji, ci);
                assert(j % c == 0);
                lemma_fundamental_div_mod(ji, ci);
                let m = ji / ci;
                assert(2 <= m) by (nonlinear_arith)
                    requires ji == ci * m, 2 * ci <= ji, ci >= 2;
                assert(is_proper_multiple_of(ji, ci)) by {
                    assert(ji == ci * m);
                }
                assert forall|t: int| 0 <= t <= upto implies
                    (flags@[t] == false <==> t < upto
                        && (has_factor_below(t, ci)
                            || (is_proper_multiple_of(t, ci) && t < j))) by {
                    if t == ji {
                        assert(flags@[t] == false);
                        assert(t < upto && is_proper_multiple_of(t, ci) && t < j);
                    } else {
                        assert(flags@[t] == flags0[t]);
                        if is_proper_multiple_of(t, ci) && t < j && !(t < ji) {
                            lemma_multiple_gap(t, ci, ji);
                        }
                    }
                }
            }
        }
        proof {
            assert forall|t: int| 0 <= t <= upto implies
                ((t < upto && has_factor_below(t, ci + 1))
                    <==> (t < upto
                        && (has_factor_below(t, ci) || (is_proper_multiple_of(t, ci) && t < j)))) by {
                if t < upto {
                    if has_factor_below(t, ci + 1) {
                        let (d, m) = choose|d: int, m: int|
                            2 <= d < ci + 1 && 2 <= m && t == #[trigger] (d * m);
                        if d == ci {
                            assert(is_proper_multiple_of(t, ci)) by {
                                assert(t == ci * m);
                            }
                        } else {
                            assert(has_factor_below(t, ci)) by {
                                assert(2 <= d < ci && 2 <= m && t == d * m);
                            }
                        }
                    }
                    if has_factor_below(t, ci) {
                        let (d, m) = choose|d: int, m: int|
                            2 <= d < ci && 2 <= m && t == #[trigger] (d * m);
                        assert(2 <= d < ci + 1 && 2 <= m && t == d * m);
                    }
                    if is_proper_multiple_of(t, ci) && t < j {
                        let m = choose|m: int| 2 <= m && t == #[trigger] (ci * m);
                        assert(2 <= ci < ci + 1 && 2 <= m && t == ci * m);
                    }
                }
            }
        }
        c += 1;
    }
    proof {
        assert forall|t: int| 2 <= t < upto implies
            (flags@[t] == true <==> #[trigger] is_prime(t)) by {
            lemma_factor_character(t, c as int);
        }
    }
    let mut out: Vec<u128> = Vec::new();
    let mut i2: usize = 2;
    while i2 < upto
        invariant
            flags@.len() == upto + 1,
            2 <= i2,
            forall|t: int| 2 <= t < upto ==> (flags@[t] == true <==> #[trigger] is_prime(t)),
            forall|k: int| 0 <= k < out@.len()
                ==> 2 <= #[trigger] out@[k] && out@[k] < i2 && out@[k] < upto
                    && is_prime(out@[k] as int),
            forall|k1: int, k2: int| 0 <= k1 < k2 < out@.len() ==> out@[k1] < out@[k2],
            forall|t: int| 2 <= t < i2 && t < upto && #[trigger] is_prime(t)
                ==> exists|k: int| 0 <= k < out@.len() && out@[k] == t,
        decreases upto - i2,
    {
        let ghost out0 = out@;
        if flags[i2] {
            out.push(i2 as u128);
        }
        proof {
            assert forall|t: int| 2 <= t < i2 + 1 && t < upto && #[trigger] is_prime(t)
                implies exists|k: int| 0 <= k < out@.len() && out@[k] == t by {
                if t == i2 {
                    assert(out@[out@.len() - 1] == i2 as u128);
                    assert(0 <= out@.len() - 1 < out@.len() && out@[out@.len() - 1] == t);
                } else {
                    let k0 = choose|k: int| 0 <= k < out0.len() && out0[k] == t;
                    assert(0 <= k0 < out@.len() && out@[k0] == t);
                }
            }
        }
        i2 += 1;
    }
    out
}

} // verus!
