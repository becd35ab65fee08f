//! Ceiling of a quotient of natural numbers.

use vstd::arithmetic::div_mod::lemma_fundamental_div_mod;
use vstd::prelude::*;

verus! {

/// The quotient `n / d` rounded up to a whole number.
pub open spec fn ceil_div(n: nat, d: nat) -> nat
    recommends
        d > 0,
{
    if n == 0 {
        0
    } else {
        ((n - 1) / (d as int) + 1) as nat
    }
}

/// `ceil_div(n, d)` is the least `k` with `n <= k * d`.
pub proof fn lemma_ceil_div_is_least(n: nat, d: nat, k: nat)
    requires
        d > 0,
    ensures
        ceil_div(n, d) <= k <==> n <= k * d,
{
    if n > 0 {
        let q = (n - 1) / (d as int);
        let r = (n - 1) % (d as int);
        lemma_fundamental_div_mod(n - 1, d as int);
        assert(q + 1 <= k <==> n <= k * d) by (nonlinear_arith)
            requires
                d > 0,
                n - 1 == d * q + r,
                0 <= r < d,
        ;
    } else {
        assert(0 <= k * d) by (nonlinear_arith);
    }
}

/// A common positive factor of numerator and denominator cancels.
pub proof fn lemma_ceil_div_cancel(n: nat, d: nat, c: nat)
    requires
        d > 0,
        c > 0,
    ensures
        ceil_div(n * c, d * c) == ceil_div(n, d),
{
    let a = ceil_div(n, d);
    let b = ceil_div(n * c, d * c);
    assert(d * c > 0) by (nonlinear_arith)
        requires
            d > 0,
            c > 0,
    ;
    lemma_ceil_div_is_least(n, d, a);
    lemma_ceil_div_is_least(n, d, b);
    lemma_ceil_div_is_least(n * c, d * c, a);
    lemma_ceil_div_is_least(n * c, d * c, b);
    assert(n <= a * d ==> n * c <= a * (d * c)) by (nonlinear_arith)
        requires
            c > 0,
    ;
    assert(n * c <= b * (d * c) ==> n <= b * d) by (nonlinear_arith)
        requires
            c > 0,
    ;
}

/// A larger denominator gives a ceiling that is no larger.
pub proof fn lemma_ceil_div_antitone(n: nat, d1: nat, d2: nat)
    requires
        0 < d1 <= d2,
    ensures
        ceil_div(n, d2) <= ceil_div(n, d1),
{
    let a = ceil_div(n, d1);
    lemma_ceil_div_is_least(n, d1, a);
    lemma_ceil_div_is_least(n, d2, a);
    assert(a * d1 <= a * d2) by (nonlinear_arith)
        requires
            d1 <= d2,
            a >= 0,
    ;
}

} // verus!
