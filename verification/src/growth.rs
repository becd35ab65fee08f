//! Lower bounds on powers: how fast `(b + f)^i` outgrows `b^i`.

use vstd::arithmetic::div_mod::lemma_fundamental_div_mod;
use vstd::arithmetic::power::{
    lemma_pow0,
    lemma_pow1,
    lemma_pow_adds,
    lemma_pow_distributes,
    lemma_pow_multiplies,
    lemma_pow_positive,
    pow,
};
use vstd::arithmetic::power2::{lemma_pow2, pow2};
use vstd::prelude::*;

verus! {

/// A positive power is the base times the power before it.
pub proof fn lemma_pow_unfold(b: int, n: nat)
    requires
        n >= 1,
    ensures
        pow(b, n) == b * pow(b, (n - 1) as nat),
{
    lemma_pow_adds(b, 1, (n - 1) as nat);
    lemma_pow1(b);
}

/// A larger base gives a power that is no smaller.
pub proof fn lemma_pow_base_increases(a: int, b: int, n: nat)
    requires
        0 <= a <= b,
    ensures
        0 <= pow(a, n) <= pow(b, n),
    decreases n,
{
    if n == 0 {
        lemma_pow0(a);
        lemma_pow0(b);
    } else {
        let m = (n - 1) as nat;
        lemma_pow_base_increases(a, b, m);
        lemma_pow_unfold(a, n);
        lemma_pow_unfold(b, n);
        let x = pow(a, m);
        let y = pow(b, m);
        assert(0 <= a * x <= b * y) by (nonlinear_arith)
            requires
                0 <= a <= b,
                0 <= x <= y,
        ;
    }
}

/// Bernoulli's inequality over whole numbers:
/// `(b + f)^n >= b^n + n * f * b^(n - 1)`.
pub proof fn lemma_pow_bernoulli(b: int, f: int, n: nat)
    requires
        b >= 1,
        f >= 0,
        n >= 1,
    ensures
        pow(b + f, n) >= pow(b, n) + n * f * pow(b, (n - 1) as nat),
    decreases n,
{
    let m = (n - 1) as nat;
    lemma_pow_unfold(b + f, n);
    lemma_pow_unfold(b, n);
    lemma_pow_positive(b, m);
    let whole = pow(b + f, n);
    let lead = pow(b, m);
    if n == 1 {
        lemma_pow0(b);
        lemma_pow0(b + f);
        assert(whole == b + f) by (nonlinear_arith)
            requires
                whole == (b + f) * 1,
        ;
        assert(b * lead + n * f * lead == b + f) by (nonlinear_arith)
            requires
                n == 1,
                lead == 1,
        ;
    } else {
        lemma_pow_bernoulli(b, f, m);
        lemma_pow_unfold(b, m);
        lemma_pow_positive(b, (m - 1) as nat);
        let x = pow(b + f, m);
        let prior = pow(b, (m - 1) as nat);
        let gain = m * f * prior;
        assert(gain >= 0) by (nonlinear_arith)
            requires
                gain == m * f * prior,
                m >= 0,
                f >= 0,
                prior > 0,
        ;
        assert((b + f) * x >= (b + f) * (lead + gain)) by (nonlinear_arith)
            requires
                x >= lead + gain,
                b + f >= 1,
        ;
        assert(b * gain == m * f * lead) by (nonlinear_arith)
            requires
                gain == m * f * prior,
                lead == b * prior,
        ;
        assert(f * gain >= 0) by (nonlinear_arith)
            requires
                f >= 0,
                gain >= 0,
        ;
        assert((b + f) * (lead + gain) == b * lead + b * gain + f * lead + f * gain)
            by (nonlinear_arith);
        assert(m * f * lead + f * lead == n * f * lead) by (nonlinear_arith)
            requires
                n == m + 1,
        ;
        assert(whole >= b * lead + n * f * lead);
    }
}

/// Where `n * f >= b`, the `n`-th power of `b + f` is at least twice that
/// of `b`.
pub proof fn lemma_pow_doubles(b: int, f: int, n: nat)
    requires
        b >= 1,
        f >= 0,
        n >= 1,
        n * f >= b,
    ensures
        pow(b + f, n) >= 2 * pow(b, n),
{
    let m = (n - 1) as nat;
    lemma_pow_bernoulli(b, f, n);
    lemma_pow_unfold(b, n);
    lemma_pow_positive(b, m);
    let p = pow(b, m);
    assert(n * f * p >= b * p) by (nonlinear_arith)
        requires
            n * f >= b,
            p > 0,
    ;
}

/// Where `n * f >= b`, every `n` further factors of `b + f` gain a factor of
/// two over those of `b`: `(b + f)^i >= 2^(i / n) * b^i`.
pub proof fn lemma_pow_gains_doublings(b: int, f: int, n: nat, i: nat)
    requires
        b >= 1,
        f >= 0,
        n >= 1,
        n * f >= b,
    ensures
        pow(b + f, i) >= pow2(i / n) * pow(b, i),
{
    let q = i / n;
    let r = i % n;
    lemma_fundamental_div_mod(i as int, n as int);
    assert(i == n * q + r);
    // (b + f)^i == ((b + f)^n)^q * (b + f)^r
    lemma_pow_adds(b + f, n * q, r);
    lemma_pow_multiplies(b + f, n, q);
    // b^i == (b^n)^q * b^r
    lemma_pow_adds(b, n * q, r);
    lemma_pow_multiplies(b, n, q);
    // ((b + f)^n)^q >= (2 * b^n)^q == 2^q * (b^n)^q
    lemma_pow_doubles(b, f, n);
    lemma_pow_positive(b, n);
    lemma_pow_base_increases(2 * pow(b, n), pow(b + f, n), q);
    lemma_pow_distributes(2, pow(b, n), q);
    lemma_pow2(q);
    // (b + f)^r >= b^r
    lemma_pow_base_increases(b, b + f, r);
    lemma_pow_positive(b, r);
    let two_q = pow2(q) as int;
    let bq = pow(pow(b, n), q);
    let cq = pow(pow(b + f, n), q);
    let br = pow(b, r);
    let cr = pow(b + f, r);
    assert(cq * cr >= two_q * (bq * br)) by (nonlinear_arith)
        requires
            cq >= two_q * bq,
            two_q * bq >= 0,
            cr >= br,
            br > 0,
    ;
}

} // verus!
