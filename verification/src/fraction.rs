//! Exact non-negative rational values.
//!
//! Aggregate statistics (mean, percentile, pass rate, ...) are rarely whole
//! numbers of grade units, so the library reports them as exact fractions
//! instead of rounding. A [`Fraction`] denotes the rational number
//! `num / den`; the denominator is always positive.

use vstd::prelude::*;

verus! {

/// An exact non-negative rational number `num / den` with `den > 0`.
#[derive(Clone, Copy, Debug, PartialEq, Eq, Structural)]
pub struct Fraction {
    pub num: u64,
    pub den: u64,
}

impl Fraction {
    /// True when the denominator is positive, so the value is well defined.
    pub open spec fn wf(self) -> bool {
        self.den > 0
    }

    /// The exact rational value scaled by the denominator:
    /// `self` denotes `num / den`.
    pub open spec fn spec_new(num: u64, den: u64) -> Fraction {
        Fraction { num, den }
    }

    /// Builds the fraction `num / den`.
    pub fn new(num: u64, den: u64) -> (r: Fraction)
        requires
            den > 0,
        ensures
            r == Fraction::spec_new(num, den),
            r.wf(),
    {
        Fraction { num, den }
    }

    /// The exact zero value, written `0 / 1`.
    pub open spec fn spec_zero() -> Fraction {
        Fraction { num: 0, den: 1 }
    }

    /// Returns the exact zero value.
    pub fn zero() -> (r: Fraction)
        ensures
            r == Fraction::spec_zero(),
            r.wf(),
    {
        Fraction { num: 0, den: 1 }
    }

    /// Two fractions denote the same rational number exactly when they
    /// cross-multiply equal.
    pub open spec fn spec_eq_value(self, other: Fraction) -> bool {
        self.num * other.den == other.num * self.den
    }

    /// Compares the rational values of two fractions (not their
    /// representations): `a/b == c/d` iff `a*d == c*b`.
    pub fn eq_value(&self, other: &Fraction) -> (r: bool)
        requires
            self.wf(),
            other.wf(),
        ensures
            r == self.spec_eq_value(*other),
    {
        proof {
            lemma_mul_u64_fits_u128(self.num, other.den);
            lemma_mul_u64_fits_u128(other.num, self.den);
        }
        (self.num as u128) * (other.den as u128) == (other.num as u128) * (self.den as u128)
    }
}

/// The product of two 64-bit values always fits in 128 bits.
proof fn lemma_mul_u64_fits_u128(a: u64, b: u64)
    ensures
        (a as int) * (b as int) <= u128::MAX as int,
{
    assert((a as int) * (b as int) <= (u64::MAX as int) * (u64::MAX as int)) by (nonlinear_arith)
        requires
            a <= u64::MAX,
            b <= u64::MAX,
    ;
}

} // verus!
