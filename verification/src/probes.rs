//! Probe counts along one axis of the render target.
//!
//! Probes at cascade `index` stand `spacing * scaling^index` apart, so an axis
//! of `extent` pixels is covered by `ceil(extent / (spacing * scaling^index))`
//! cells, and one more probe closes the last cell. Spacing and scaling are
//! binary32 values; the quotient is taken over their exact values.

use crate::binary32::{Binary32, ONE_BITS};
use crate::growth::lemma_pow_gains_doublings;
use crate::ceiling::{
    ceil_div,
    lemma_ceil_div_antitone,
    lemma_ceil_div_cancel,
    lemma_ceil_div_is_least,
};
use crate::natural::Natural;
use vstd::arithmetic::div_mod::{
    lemma_basic_div,
    lemma_div_denominator,
    lemma_div_is_ordered_by_denominator,
    lemma_fundamental_div_mod,
};
use vstd::arithmetic::power::{
    lemma_pow0,
    lemma_pow1,
    lemma_pow_adds,
    lemma_pow_distributes,
    lemma_pow_increases,
    lemma_pow_multiplies,
    lemma_pow_positive,
    pow,
};
use vstd::arithmetic::power2::{
    lemma2_to64,
    lemma_pow2,
    lemma_pow2_adds,
    lemma_pow2_pos,
    lemma_pow2_strictly_increases,
    pow2,
};
use vstd::prelude::*;

verus! {

/// Number of cells along an axis: `extent / (spacing * scaling^index)`,
/// rounded up. With `s` and `k` the two values in units of `2^-149`, the
/// quotient is `extent * 2^(149 * (index + 1)) / (s * k^index)`.
pub open spec fn axis_cells(extent: nat, spacing: Binary32, scaling: Binary32, index: nat) -> nat {
    ceil_div(
        extent * pow2(149 * (index + 1)),
        (spacing.units() * pow(scaling.units() as int, index)) as nat,
    )
}

/// Number of probes along an axis: one more than the number of cells.
pub open spec fn axis_probes(extent: nat, spacing: Binary32, scaling: Binary32, index: nat) -> nat {
    axis_cells(extent, spacing, scaling, index) + 1
}

/// The product of the integer significands of `spacing * scaling^index`.
pub open spec fn significand_product(spacing: Binary32, scaling: Binary32, index: nat) -> int {
    spacing.significand() * pow(scaling.significand() as int, index)
}

/// The power of two that scales `significand_product`.
pub open spec fn exponent_sum(spacing: Binary32, scaling: Binary32, index: nat) -> int {
    spacing.exponent() + index * scaling.exponent()
}

/// The denominator of `axis_cells` is the significand product times a power
/// of two.
proof fn lemma_denominator_by_parts(spacing: Binary32, scaling: Binary32, index: nat)
    requires
        spacing.units() > 0,
        scaling.units() > 0,
    ensures
        significand_product(spacing, scaling, index) > 0,
        exponent_sum(spacing, scaling, index) + 149 * (index + 1) >= 0,
        spacing.units() * pow(scaling.units() as int, index) == significand_product(
            spacing,
            scaling,
            index,
        ) * pow2((exponent_sum(spacing, scaling, index) + 149 * (index + 1)) as nat),
{
    let ms = spacing.significand() as int;
    let mk = scaling.significand() as int;
    let a = (spacing.exponent() + 149) as nat;
    let b = (scaling.exponent() + 149) as nat;
    spacing.lemma_units_positive();
    scaling.lemma_units_positive();
    lemma_pow_positive(mk, index);
    let pk = pow(mk, index);
    assert(ms * pk > 0) by (nonlinear_arith)
        requires
            ms > 0,
            pk > 0,
    ;
    // scaling.units()^index == mk^index * 2^(b * index)
    lemma_pow_distributes(mk, pow2(b) as int, index);
    lemma_pow2(b);
    lemma_pow_multiplies(2, b, index);
    lemma_pow2(b * index);
    assert(pow(scaling.units() as int, index) == pk * pow2(b * index));
    lemma_pow2_adds(a, b * index);
    let t = exponent_sum(spacing, scaling, index) + 149 * (index + 1);
    assert(t == a + b * index) by (nonlinear_arith)
        requires
            t == spacing.exponent() + index * scaling.exponent() + 149 * (index + 1),
            a == spacing.exponent() + 149,
            b == scaling.exponent() + 149,
    ;
    let pa = pow2(a) as int;
    let pb = pow2(b * index) as int;
    assert((ms * pa) * (pk * pb) == (ms * pk) * (pa * pb)) by (nonlinear_arith);
}

/// `axis_cells` over significands and exponents: the common power of two of
/// numerator and denominator cancels.
pub proof fn lemma_axis_cells_by_parts(
    extent: nat,
    spacing: Binary32,
    scaling: Binary32,
    index: nat,
)
    requires
        spacing.units() > 0,
        scaling.units() > 0,
    ensures
        significand_product(spacing, scaling, index) > 0,
        axis_cells(extent, spacing, scaling, index) == if exponent_sum(spacing, scaling, index)
            >= 0 {
            ceil_div(
                extent,
                (significand_product(spacing, scaling, index) * pow2(
                    exponent_sum(spacing, scaling, index) as nat,
                )) as nat,
            )
        } else {
            ceil_div(
                extent * pow2((-exponent_sum(spacing, scaling, index)) as nat),
                significand_product(spacing, scaling, index) as nat,
            )
        },
{
    lemma_denominator_by_parts(spacing, scaling, index);
    let m = significand_product(spacing, scaling, index) as nat;
    let e = exponent_sum(spacing, scaling, index);
    let u = 149 * (index + 1);
    let t = (e + u) as nat;
    lemma_pow2_pos(u);
    lemma_pow2_pos(t);
    if e >= 0 {
        let pe = pow2(e as nat);
        let pu = pow2(u);
        lemma_pow2_pos(e as nat);
        lemma_pow2_adds(e as nat, u);
        assert(m * pe > 0) by (nonlinear_arith)
            requires
                m > 0,
                pe > 0,
        ;
        assert(m * (pe * pu) == (m * pe) * pu) by (nonlinear_arith);
        lemma_ceil_div_cancel(extent, m * pe, pu);
    } else {
        let f = (-e) as nat;
        let pf = pow2(f);
        let pt = pow2(t);
        lemma_pow2_adds(f, t);
        assert(extent * (pf * pt) == (extent * pf) * pt) by (nonlinear_arith);
        lemma_ceil_div_cancel(extent * pf, m, pt);
    }
}

/// The cells cover the axis and no fewer do: `k` cells of width
/// `spacing * scaling^index` reach `extent` exactly when `k` is at least
/// `axis_cells`. Widths and extent are compared in units of
/// `2^-(149 * (index + 1))`.
pub proof fn lemma_axis_cells_is_least(
    extent: nat,
    spacing: Binary32,
    scaling: Binary32,
    index: nat,
    k: nat,
)
    requires
        spacing.is_positive(),
        scaling.is_positive(),
    ensures
        axis_cells(extent, spacing, scaling, index) <= k <==> extent * pow2(149 * (index + 1)) <= k
            * (spacing.units() * pow(scaling.units() as int, index)),
{
    let s = spacing.units() as int;
    let p = pow(scaling.units() as int, index);
    lemma_pow_positive(scaling.units() as int, index);
    assert(s * p > 0) by (nonlinear_arith)
        requires
            s > 0,
            p > 0,
    ;
    lemma_ceil_div_is_least(extent * pow2(149 * (index + 1)), (s * p) as nat, k);
}

/// One cascade further out, an axis has no more cells.
proof fn lemma_axis_cells_step(extent: nat, spacing: Binary32, scaling: Binary32, index: nat)
    requires
        spacing.is_positive(),
        scaling.is_at_least_one(),
    ensures
        axis_cells(extent, spacing, scaling, index + 1) <= axis_cells(
            extent,
            spacing,
            scaling,
            index,
        ),
{
    let s = spacing.units() as int;
    let k = scaling.units() as int;
    let unit = pow2(149);
    lemma_pow2_pos(149);
    lemma_pow_positive(k, index);
    let n = extent * pow2(149 * (index + 1));
    let d = s * pow(k, index);
    assert(d > 0) by (nonlinear_arith)
        requires
            d == s * pow(k, index),
            s > 0,
            pow(k, index) > 0,
    ;
    lemma_pow2_adds(149 * (index + 1), 149);
    assert(149 * (index + 1) + 149 == 149 * (index + 1 + 1));
    let next_n = extent * pow2(149 * (index + 1 + 1));
    assert(next_n == n * unit) by (nonlinear_arith)
        requires
            next_n == extent * pow2(149 * (index + 1 + 1)),
            n == extent * pow2(149 * (index + 1)),
            pow2(149 * (index + 1 + 1)) == pow2(149 * (index + 1)) * unit,
    ;
    lemma_pow_adds(k, index, 1);
    lemma_pow1(k);
    let next_d = s * pow(k, index + 1);
    assert(next_d == d * k) by (nonlinear_arith)
        requires
            next_d == s * pow(k, index + 1),
            pow(k, index + 1) == pow(k, index) * k,
            d == s * pow(k, index),
    ;
    assert(0 < d * unit <= d * k) by (nonlinear_arith)
        requires
            d > 0,
            0 < unit <= k,
    ;
    lemma_ceil_div_cancel(n, d as nat, unit);
    lemma_ceil_div_antitone(n * unit, (d * unit) as nat, (d * k) as nat);
}

/// The number of probes along an axis never grows with the cascade index.
pub proof fn lemma_axis_probes_non_increasing(
    extent: nat,
    spacing: Binary32,
    scaling: Binary32,
    lower: nat,
    upper: nat,
)
    requires
        spacing.is_positive(),
        scaling.is_at_least_one(),
        lower <= upper,
    ensures
        axis_probes(extent, spacing, scaling, upper) <= axis_probes(
            extent,
            spacing,
            scaling,
            lower,
        ),
    decreases upper - lower,
{
    if lower < upper {
        lemma_axis_probes_non_increasing(extent, spacing, scaling, lower, (upper - 1) as nat);
        lemma_axis_cells_step(extent, spacing, scaling, (upper - 1) as nat);
    }
}

/// With a scaling of one every cascade has the cells of cascade 0.
pub proof fn lemma_axis_cells_unit_scaling(
    extent: nat,
    spacing: Binary32,
    scaling: Binary32,
    index: nat,
)
    requires
        spacing.units() > 0,
        scaling.units() == pow2(149),
    ensures
        axis_cells(extent, spacing, scaling, index) == axis_cells(extent, spacing, scaling, 0),
{
    let s = spacing.units();
    let unit = pow2(149);
    let c = pow2(149 * index);
    lemma_pow2(149);
    lemma_pow_multiplies(2, 149, index);
    lemma_pow2(149 * index);
    assert(pow(unit as int, index) == c);
    lemma_pow2_pos(149 * index);
    lemma_pow2_adds(149, 149 * index);
    assert(149 * (index + 1) == 149 + 149 * index);
    assert(extent * (unit * c) == (extent * unit) * c) by (nonlinear_arith);
    lemma_ceil_div_cancel(extent * unit, s, c);
    lemma_pow0(unit as int);
    assert(s * 1 == s) by (nonlinear_arith);
    assert(149 * (0 + 1) == 149);
}

/// Where a cell is at least `2^32` wide, one cell covers the axis. The width
/// is bounded from below: the significand of the spacing is at least
/// `2^head`, that of the scaling is `2^23 + f`, and every `period` cascades,
/// with `period * f >= 2^23`, double the width once more than the exponents
/// say.
pub proof fn lemma_axis_cells_wide(
    extent: nat,
    spacing: Binary32,
    scaling: Binary32,
    index: nat,
    head: nat,
    period: nat,
)
    requires
        1 <= extent < 0x1_0000_0000,
        spacing.significand() >= pow2(head),
        scaling.significand() >= 0x80_0000,
        period >= 1,
        scaling.significand() == 0x80_0000 || period * (scaling.significand() - 0x80_0000)
            >= 0x80_0000,
        exponent_sum(spacing, scaling, index) + head + 23 * index + (if scaling.significand()
            == 0x80_0000 {
            0
        } else {
            index / period
        }) >= 32,
    ensures
        axis_cells(extent, spacing, scaling, index) == 1,
{
    let ms = spacing.significand() as int;
    let mk = scaling.significand() as int;
    let f = mk - 0x80_0000;
    let gain = if f == 0 {
        0
    } else {
        index / period
    };
    let e = exponent_sum(spacing, scaling, index);
    let tail = 23 * index + gain;
    let g = head + tail;
    lemma_pow2_pos(head);
    spacing.lemma_units_positive();
    scaling.lemma_units_positive();
    lemma2_to64();
    // mk^index >= 2^tail
    let pk = pow(mk, index);
    let pb = pow(0x80_0000, index);
    lemma_pow2(23);
    lemma_pow_multiplies(2, 23, index);
    lemma_pow2(23 * index);
    assert(pb == pow2(23 * index));
    lemma_pow2_pos(23 * index);
    if f == 0 {
        assert(pk >= pow2(tail));
    } else {
        lemma_pow_gains_doublings(0x80_0000, f, period, index);
        lemma_pow2_adds(gain, 23 * index);
        assert(gain + 23 * index == tail);
    }
    lemma_pow2_pos(tail);
    lemma_pow2_adds(head, tail);
    lemma_pow2_pos(g);
    let m = significand_product(spacing, scaling, index);
    assert(m >= pow2(g)) by (nonlinear_arith)
        requires
            m == ms * pk,
            ms >= pow2(head),
            pk >= pow2(tail),
            pow2(g) == pow2(head) * pow2(tail),
            pow2(head) > 0,
            pow2(tail) > 0,
    ;
    lemma_axis_cells_by_parts(extent, spacing, scaling, index);
    if e >= 0 {
        let pe = pow2(e as nat);
        lemma_pow2_pos(e as nat);
        lemma_pow2_adds(g, e as nat);
        if g + e > 32 {
            lemma_pow2_strictly_increases(32, (g + e) as nat);
        }
        assert(m * pe >= pow2(g) * pe) by (nonlinear_arith)
            requires
                m >= pow2(g),
                pe > 0,
        ;
        lemma_basic_div(extent - 1, m * pe);
    } else {
        let span = (-e) as nat;
        let ps = pow2(span);
        lemma_pow2_pos(span);
        lemma_pow2_adds(32, span);
        if g > 32 + span {
            lemma_pow2_strictly_increases(32 + span, g);
        }
        assert(1 <= extent * ps < 0x1_0000_0000 * ps) by (nonlinear_arith)
            requires
                1 <= extent < 0x1_0000_0000,
                ps > 0,
        ;
        lemma_basic_div(extent * ps - 1, m);
    }
}

/// The number of probes along an axis of `extent` pixels at cascade `index`,
/// or `None` where that number does not fit in a `u32`.
///
/// The quotient is taken over whole numbers of as many bits as it takes, so
/// the result is exact for every input. A scaling of one, and a cascade whose
/// cells are known to be wider than any axis, are answered at once; otherwise
/// time and memory grow with `index`, which matters only for a scaling barely
/// above one.
pub fn checked_axis_probes(extent: u32, spacing: Binary32, scaling: Binary32, index: u32) -> (r:
    Option<u32>)
    requires
        spacing.is_positive(),
        scaling.is_at_least_one(),
    ensures
        r == if axis_probes(extent as nat, spacing, scaling, index as nat) <= u32::MAX {
            Some(axis_probes(extent as nat, spacing, scaling, index as nat) as u32)
        } else {
            None
        },
{
    if extent == 0 {
        assert(0 * pow2(149 * (index as nat + 1)) == 0) by (nonlinear_arith);
        return Some(1);
    }
    if scaling.to_bits() == ONE_BITS {
        proof {
            scaling.lemma_units_of_one();
            lemma_axis_cells_unit_scaling(extent as nat, spacing, scaling, index as nat);
        }
        return exact_axis_probes(extent, spacing, scaling, 0);
    }
    let (ms, es) = spacing.decode();
    let (mk, ek) = scaling.decode();
    proof {
        scaling.lemma_at_least_one_by_encoding();
    }
    // A lower bound on the binary logarithm of the cell width.
    let head: i64 = if ms >= 0x80_0000 {
        23
    } else {
        0
    };
    let fraction: u32 = mk - 0x80_0000;
    let period: u32 = if fraction == 0 {
        1
    } else {
        (0x80_0000 + fraction - 1) / fraction
    };
    proof {
        if fraction != 0 {
            let whole = 0x80_0000 + fraction - 1;
            lemma_fundamental_div_mod(whole, fraction as int);
            assert(period >= 1 && period * fraction >= 0x80_0000) by (nonlinear_arith)
                requires
                    whole == fraction * period + whole % (fraction as int),
                    0 <= whole % (fraction as int) < fraction,
                    whole == 0x80_0000 + fraction - 1,
                    0 < fraction < 0x80_0000,
            ;
        }
    }
    let gain: u32 = if fraction == 0 {
        0
    } else {
        index / period
    };
    proof {
        assert(0 <= index * (ek + 23) <= 128 * 0x1_0000_0000) by (nonlinear_arith)
            requires
                0 <= index < 0x1_0000_0000,
                0 <= ek + 23 <= 128,
        ;
        assert(index * (ek + 23) == index * ek + 23 * index) by (nonlinear_arith);
    }
    let lower: i64 = es as i64 + head + index as i64 * (ek as i64 + 23) + gain as i64;
    if lower >= 32 {
        proof {
            spacing.lemma_units_positive();
            lemma2_to64();
            lemma_axis_cells_wide(
                extent as nat,
                spacing,
                scaling,
                index as nat,
                head as nat,
                period as nat,
            );
        }
        return Some(2);
    }
    exact_axis_probes(extent, spacing, scaling, index)
}

/// The number of probes along an axis by division of whole numbers.
fn exact_axis_probes(extent: u32, spacing: Binary32, scaling: Binary32, index: u32) -> (r:
    Option<u32>)
    requires
        spacing.is_positive(),
        scaling.is_at_least_one(),
    ensures
        r == if axis_probes(extent as nat, spacing, scaling, index as nat) <= u32::MAX {
            Some(axis_probes(extent as nat, spacing, scaling, index as nat) as u32)
        } else {
            None
        },
{
    if extent == 0 {
        assert(0 * pow2(149 * (index as nat + 1)) == 0) by (nonlinear_arith);
        return Some(1);
    }
    let (ms, es) = spacing.decode();
    let (mk, ek) = scaling.decode();
    assert(-149 * 0x1_0000_0000 <= index * ek <= 105 * 0x1_0000_0000) by (nonlinear_arith)
        requires
            0 <= index < 0x1_0000_0000,
            -149 <= ek <= 105,
    ;
    let e: i64 = es as i64 + index as i64 * ek as i64;
    let ghost m = significand_product(spacing, scaling, index as nat);
    proof {
        spacing.lemma_units_positive();
        scaling.lemma_at_least_one_by_encoding();
        lemma_axis_cells_by_parts(extent as nat, spacing, scaling, index as nat);
        assert(e == exponent_sum(spacing, scaling, index as nat));
    }
    let mut q = if e >= 0 {
        if e >= 32 {
            proof {
                lemma2_to64();
                if e > 32 {
                    lemma_pow2_strictly_increases(32, e as nat);
                }
                lemma_basic_div(extent - 1, pow2(e as nat) as int);
            }
            Natural::from_u32(0)
        } else {
            proof {
                vstd::bits::lemma_u32_shr_is_div((extent - 1) as u32, e as u32);
            }
            Natural::from_u32((extent - 1) >> (e as u32))
        }
    } else {
        Natural::below_shifted(extent, (-e) as u64)
    };
    let ghost start = q@ as int;
    proof {
        // The number of cells is `start / m + 1`.
        if e >= 0 {
            let pe = pow2(e as nat) as int;
            lemma_pow2_pos(e as nat);
            lemma_div_denominator(extent - 1, pe, m);
            assert(pe * m == m * pe) by (nonlinear_arith);
        }
        assert(axis_cells(extent as nat, spacing, scaling, index as nat) == start / m + 1);
    }
    q.div_small(ms);
    let mut j: u32 = 0;
    let mut exhausted = q.is_zero();
    proof {
        lemma_pow0(mk as int);
        assert(ms * 1 == ms) by (nonlinear_arith);
    }
    while j < index && !exhausted
        invariant
            j <= index,
            ms > 0,
            mk > 0,
            start >= 0,
            exhausted == (q@ == 0),
            q@ == start / (ms * pow(mk as int, j as nat)),
        decreases index - j,
    {
        proof {
            let d = ms * pow(mk as int, j as nat);
            lemma_pow_positive(mk as int, j as nat);
            assert(d > 0) by (nonlinear_arith)
                requires
                    d == ms * pow(mk as int, j as nat),
                    ms > 0,
                    pow(mk as int, j as nat) > 0,
            ;
            lemma_div_denominator(start, d, mk as int);
            lemma_pow_adds(mk as int, j as nat, 1);
            lemma_pow1(mk as int);
            assert(d * mk == ms * pow(mk as int, (j + 1) as nat)) by (nonlinear_arith)
                requires
                    d == ms * pow(mk as int, j as nat),
                    pow(mk as int, (j + 1) as nat) == pow(mk as int, j as nat) * mk,
            ;
        }
        q.div_small(mk);
        j = j + 1;
        exhausted = q.is_zero();
    }
    proof {
        // Once the quotient is zero, further divisions leave it zero.
        let reached = ms * pow(mk as int, j as nat);
        lemma_pow_positive(mk as int, j as nat);
        lemma_pow_increases(mk as nat, j as nat, index as nat);
        assert(0 < reached <= m) by (nonlinear_arith)
            requires
                reached == ms * pow(mk as int, j as nat),
                m == ms * pow(mk as int, index as nat),
                ms > 0,
                0 < pow(mk as int, j as nat) <= pow(mk as int, index as nat),
        ;
        lemma_div_is_ordered_by_denominator(start, reached, m);
        vstd::arithmetic::div_mod::lemma_div_pos_is_pos(start, m);
        assert(q@ == start / m);
    }
    match q.to_u32() {
        Some(v) => {
            if v <= u32::MAX - 2 {
                Some(v + 2)
            } else {
                None
            }
        },
        None => None,
    }
}

} // verus!
