//! IEEE 754 binary32 values held as their bit patterns.
//!
//! Every finite binary32 value is a whole multiple of `2^-149`, the smallest
//! positive value of the format. The model of a value is that multiple, so
//! that arithmetic over values is arithmetic over natural numbers with no
//! rounding anywhere.

use vstd::arithmetic::power2::{lemma2_to64, lemma_pow2_adds, lemma_pow2_pos, pow2};
use vstd::prelude::*;

verus! {

/// Encoding of the value one.
pub const ONE_BITS: u32 = 0x3f80_0000;

/// Encoding of the value two.
pub const TWO_BITS: u32 = 0x4000_0000;

/// Encoding of positive infinity; every larger sign-free encoding is a NaN.
pub const INFINITY_BITS: u32 = 0x7f80_0000;

/// A binary32 value, identified by its 32-bit encoding: one sign bit, eight
/// bits of biased exponent, twenty-three bits of fraction.
#[derive(Clone, Copy, Debug, PartialEq, Eq, Structural)]
pub struct Binary32 {
    pub bits: u32,
}

impl Binary32 {
    /// Whether the sign bit is set.
    pub open spec fn is_negative(self) -> bool {
        self.bits >= 0x8000_0000
    }

    /// The eight-bit exponent field.
    pub open spec fn biased_exponent(self) -> nat {
        ((self.bits / 0x80_0000) % 0x100) as nat
    }

    /// The twenty-three-bit fraction field.
    pub open spec fn fraction(self) -> nat {
        (self.bits % 0x80_0000) as nat
    }

    /// Neither an infinity nor a NaN.
    pub open spec fn is_finite(self) -> bool {
        self.biased_exponent() != 0xff
    }

    /// The integer significand: the fraction, with the implicit leading bit
    /// for a normal number.
    pub open spec fn significand(self) -> nat {
        if self.biased_exponent() == 0 {
            self.fraction()
        } else {
            self.fraction() + 0x80_0000
        }
    }

    /// The power of two that scales the integer significand: the magnitude of
    /// a finite value is `significand() * 2^exponent()`.
    pub open spec fn exponent(self) -> int {
        if self.biased_exponent() == 0 {
            -149
        } else {
            self.biased_exponent() - 150
        }
    }

    /// The magnitude of a finite value as a multiple of `2^-149`.
    pub open spec fn units(self) -> nat {
        self.significand() * pow2((self.exponent() + 149) as nat)
    }

    /// A finite value greater than zero.
    pub open spec fn spec_is_positive(&self) -> bool {
        !self.is_negative() && self.is_finite() && self.units() > 0
    }

    /// A finite value greater than or equal to one.
    pub open spec fn spec_is_at_least_one(&self) -> bool {
        !self.is_negative() && self.is_finite() && self.units() >= pow2(149)
    }

    /// The value whose encoding is `bits`.
    pub fn from_bits(bits: u32) -> (r: Binary32)
        ensures
            r.bits == bits,
    {
        Binary32 { bits }
    }

    /// The encoding of this value.
    pub fn to_bits(&self) -> (r: u32)
        ensures
            r == self.bits,
    {
        self.bits
    }

    /// The value one.
    pub fn one() -> (r: Binary32)
        ensures
            r.bits == ONE_BITS,
            r.units() == pow2(149),
            r.spec_is_at_least_one(),
            r.spec_is_positive(),
    {
        let r = Binary32 { bits: ONE_BITS };
        proof {
            r.lemma_units_of_one();
            lemma_pow2_pos(149);
        }
        r
    }

    /// The value two.
    pub fn two() -> (r: Binary32)
        ensures
            r.bits == TWO_BITS,
            r.units() == 2 * pow2(149),
            r.spec_is_at_least_one(),
            r.spec_is_positive(),
    {
        let r = Binary32 { bits: TWO_BITS };
        proof {
            r.lemma_units_of_normal();
            lemma_pow2_adds(23, 127);
            lemma_pow2_adds(23, 126);
            lemma_pow2_adds(1, 126);
            lemma2_to64();
            lemma_pow2_pos(149);
            assert(r.units() == 2 * pow2(149)) by (nonlinear_arith)
                requires
                    r.units() == 0x80_0000 * pow2(127),
                    pow2(127) == 2 * pow2(126),
                    pow2(149) == 0x80_0000 * pow2(126),
            ;
        }
        r
    }

    /// The integer significand and the power of two that scales it.
    pub fn decode(&self) -> (r: (u32, i32))
        ensures
            r.0 == self.significand(),
            r.1 == self.exponent(),
            r.0 < 0x100_0000,
            -149 <= r.1 <= 105,
            self.biased_exponent() != 0 ==> r.0 >= 0x80_0000,
    {
        let bits = self.bits;
        let biased: u32 = (bits >> 23) & 0xff;
        let fraction: u32 = bits & 0x7f_ffff;
        assert((bits >> 23) & 0xff == (bits / 0x80_0000) % 0x100) by (bit_vector);
        assert(bits & 0x7f_ffff == bits % 0x80_0000) by (bit_vector);
        if biased == 0 {
            (fraction, -149)
        } else {
            (fraction + 0x80_0000, biased as i32 - 150)
        }
    }

    /// Whether this is a finite value greater than zero.
    #[verifier::when_used_as_spec(spec_is_positive)]
    pub fn is_positive(&self) -> (r: bool)
        ensures
            r == self.spec_is_positive(),
    {
        proof {
            self.lemma_units_positive();
        }
        0 < self.bits && self.bits < INFINITY_BITS
    }

    /// Whether this is a finite value greater than or equal to one.
    #[verifier::when_used_as_spec(spec_is_at_least_one)]
    pub fn is_at_least_one(&self) -> (r: bool)
        ensures
            r == self.spec_is_at_least_one(),
    {
        proof {
            self.lemma_at_least_one_by_encoding();
        }
        ONE_BITS <= self.bits && self.bits < INFINITY_BITS
    }

    /// The value one is `2^149` units.
    pub proof fn lemma_units_of_one(self)
        requires
            self.bits == ONE_BITS,
        ensures
            self.units() == pow2(149),
    {
        self.lemma_units_of_normal();
        lemma_pow2_adds(23, 126);
        lemma2_to64();
    }

    /// For a normal number the scale in units is `2^(biased exponent - 1)`.
    pub proof fn lemma_units_of_normal(self)
        requires
            self.biased_exponent() != 0,
        ensures
            self.units() == (self.fraction() + 0x80_0000) * pow2(
                (self.biased_exponent() - 1) as nat,
            ),
    {
    }

    /// The magnitude is zero exactly when the significand is.
    pub proof fn lemma_units_positive(self)
        ensures
            self.units() > 0 <==> self.significand() > 0,
            self.significand() > 0 <==> self.bits % 0x8000_0000 != 0,
    {
        let p = pow2((self.exponent() + 149) as nat);
        lemma_pow2_pos((self.exponent() + 149) as nat);
        let s = self.significand();
        assert(s * p > 0 <==> s > 0) by (nonlinear_arith)
            requires
                p > 0,
                s >= 0,
        ;
    }

    /// Among the sign-free finite encodings, the values of at least one are
    /// those from the encoding of one upward.
    pub proof fn lemma_at_least_one_by_encoding(self)
        ensures
            self.spec_is_at_least_one() <==> ONE_BITS <= self.bits < INFINITY_BITS,
            self.spec_is_at_least_one() ==> self.spec_is_positive(),
            self.spec_is_at_least_one() ==> self.significand() >= 0x80_0000
                && self.exponent() >= -23,
    {
        let b = self.biased_exponent();
        let s = self.significand();
        lemma2_to64();
        lemma_pow2_adds(23, 126);
        lemma_pow2_adds(24, 125);
        lemma_pow2_pos(149);
        if b == 0 {
            lemma_pow2_adds(23, 126);
            lemma_pow2_pos(126);
            assert(self.units() < pow2(149)) by (nonlinear_arith)
                requires
                    self.units() == s * 1,
                    s < 0x80_0000,
                    pow2(149) == 0x80_0000 * pow2(126),
                    pow2(126) > 0,
            ;
        } else if b >= 127 {
            let p = pow2((b - 1) as nat);
            if b > 127 {
                vstd::arithmetic::power2::lemma_pow2_strictly_increases(126, (b - 1) as nat);
            }
            assert(s * p >= pow2(149)) by (nonlinear_arith)
                requires
                    s >= 0x80_0000,
                    p >= pow2(126),
                    pow2(149) == 0x80_0000 * pow2(126),
            ;
        } else {
            let p = pow2((b - 1) as nat);
            if b < 126 {
                vstd::arithmetic::power2::lemma_pow2_strictly_increases((b - 1) as nat, 125);
            }
            lemma_pow2_pos((b - 1) as nat);
            assert(s * p < pow2(149)) by (nonlinear_arith)
                requires
                    s < 0x100_0000,
                    0 < p <= pow2(125),
                    pow2(149) == 0x100_0000 * pow2(125),
            ;
        }
    }
}

} // verus!
