//! Exact conversion factors.
//!
//! A conversion factor is a positive fraction `numer / denom`. Composition keeps it
//! exact: products and quotients multiply numerators and denominators, and every
//! operation fails with `None` instead of overflowing. A factor is read out as a
//! floating value only at the point of use, outside this crate's verified code.
use crate::arith::{checked_pow_u64, gcd, gcd_u64, lemma_div_exact, lemma_gcd_divides, lemma_gcd_positive};
use vstd::arithmetic::div_mod::*;
use vstd::arithmetic::mul::*;
use vstd::arithmetic::power::*;
use vstd::prelude::*;

verus! {

/// Why a conversion factor could not be computed.
#[derive(Clone, Copy, Debug, PartialEq, Eq, Structural)]
pub enum ConversionError {
    /// The two units do not measure the same physical dimension.
    IncompatibleDimension,
    /// No conversion edge is declared between two base units that must be related.
    UnresolvedConversion,
    /// The exact fraction does not fit the integer width.
    NumericOverflow,
}

/// The positive fraction `numer / denom`.
#[derive(Clone, Copy, Debug, PartialEq, Eq, Structural)]
pub struct ConversionFactor {
    pub numer: u64,
    pub denom: u64,
}

/// Two fractions, given as numerator and denominator, denote the same number.
pub open spec fn same_value(n1: int, d1: int, n2: int, d2: int) -> bool {
    n1 * d2 == n2 * d1
}

impl ConversionFactor {
    /// Both parts are positive.
    pub open spec fn wf(&self) -> bool {
        self.numer >= 1 && self.denom >= 1
    }

    /// Numerator of `self` raised to the integer power `e`.
    pub open spec fn pow_numer(&self, e: int) -> int {
        if e >= 0 {
            pow(self.numer as int, e as nat)
        } else {
            pow(self.denom as int, (-e) as nat)
        }
    }

    /// Denominator of `self` raised to the integer power `e`.
    pub open spec fn pow_denom(&self, e: int) -> int {
        if e >= 0 {
            pow(self.denom as int, e as nat)
        } else {
            pow(self.numer as int, (-e) as nat)
        }
    }

    /// The identity factor `1/1`.
    pub fn one() -> (r: ConversionFactor)
        ensures
            r.wf(),
            r.numer == 1 && r.denom == 1,
    {
        ConversionFactor { numer: 1, denom: 1 }
    }

    /// The factor `i/1`.
    pub fn from_integer(i: u64) -> (r: ConversionFactor)
        requires
            i >= 1,
        ensures
            r.wf(),
            r.numer == i && r.denom == 1,
    {
        ConversionFactor { numer: i, denom: 1 }
    }

    /// The factor `n/d`, kept as given.
    pub fn from_ratio(n: u64, d: u64) -> (r: ConversionFactor)
        requires
            n >= 1,
            d >= 1,
        ensures
            r.wf(),
            r.numer == n && r.denom == d,
    {
        ConversionFactor { numer: n, denom: d }
    }

    /// `self * other`, or `None` when a part exceeds `u64::MAX`.
    pub fn product(&self, other: &ConversionFactor) -> (r: Option<ConversionFactor>)
        requires
            self.wf(),
            other.wf(),
        ensures
            r is Some <==> (self.numer * other.numer <= u64::MAX && self.denom * other.denom
                <= u64::MAX),
            r matches Some(v) ==> v.wf() && v.numer == self.numer * other.numer && v.denom
                == self.denom * other.denom,
    {
        proof {
            lemma_mul_increases(self.numer as int, other.numer as int);
            lemma_mul_increases(self.denom as int, other.denom as int);
        }
        let n = match self.numer.checked_mul(other.numer) {
            Some(n) => n,
            None => {
                return None;
            },
        };
        let d = match self.denom.checked_mul(other.denom) {
            Some(d) => d,
            None => {
                return None;
            },
        };
        Some(ConversionFactor { numer: n, denom: d })
    }

    /// `self / other`, or `None` when a part exceeds `u64::MAX`.
    pub fn quotient(&self, other: &ConversionFactor) -> (r: Option<ConversionFactor>)
        requires
            self.wf(),
            other.wf(),
        ensures
            r is Some <==> (self.numer * other.denom <= u64::MAX && self.denom * other.numer
                <= u64::MAX),
            r matches Some(v) ==> v.wf() && v.numer == self.numer * other.denom && v.denom
                == self.denom * other.numer,
    {
        self.product(&other.reciprocal())
    }

    /// `1 / self`: numerator and denominator swapped.
    pub fn reciprocal(&self) -> (r: ConversionFactor)
        requires
            self.wf(),
        ensures
            r.wf(),
            r.numer == self.denom && r.denom == self.numer,
    {
        ConversionFactor { numer: self.denom, denom: self.numer }
    }

    /// `self` raised to the integer power `e`: the identity for `e == 0`, the
    /// reciprocal of `self^(-e)` for negative `e`. `None` when a part exceeds `u64::MAX`.
    pub fn power(&self, e: i32) -> (r: Option<ConversionFactor>)
        requires
            self.wf(),
        ensures
            r is Some <==> (self.pow_numer(e as int) <= u64::MAX && self.pow_denom(e as int)
                <= u64::MAX),
            r matches Some(v) ==> v.wf() && v.numer == self.pow_numer(e as int) && v.denom
                == self.pow_denom(e as int),
    {
        let m: u32 = if e >= 0 {
            e as u32
        } else {
            ((-(e + 1)) as u32) + 1
        };
        let (top, bottom) = if e >= 0 {
            (self.numer, self.denom)
        } else {
            (self.denom, self.numer)
        };
        proof {
            lemma_pow_positive(top as int, m as nat);
            lemma_pow_positive(bottom as int, m as nat);
        }
        let n = match checked_pow_u64(top, m) {
            Some(n) => n,
            None => {
                return None;
            },
        };
        let d = match checked_pow_u64(bottom, m) {
            Some(d) => d,
            None => {
                return None;
            },
        };
        Some(ConversionFactor { numer: n, denom: d })
    }

    /// The same number in lowest terms: both parts divided by their greatest
    /// common divisor.
    pub fn reduced(&self) -> (r: ConversionFactor)
        requires
            self.wf(),
        ensures
            r.wf(),
            r.numer == self.numer as nat / gcd(self.numer as nat, self.denom as nat),
            r.denom == self.denom as nat / gcd(self.numer as nat, self.denom as nat),
            same_value(r.numer as int, r.denom as int, self.numer as int, self.denom as int),
    {
        let g = gcd_u64(self.numer, self.denom);
        proof {
            lemma_reduce_keeps_value(self.numer as nat, self.denom as nat);
        }
        ConversionFactor { numer: self.numer / g, denom: self.denom / g }
    }

    /// Whether `self` and `other` denote the same number.
    pub fn same_value_as(&self, other: &ConversionFactor) -> (r: bool)
        ensures
            r == same_value(
                self.numer as int,
                self.denom as int,
                other.numer as int,
                other.denom as int,
            ),
    {
        proof {
            lemma_mul_upper_bound(self.numer as int, u64::MAX as int, other.denom as int, u64::MAX as int);
            lemma_mul_upper_bound(other.numer as int, u64::MAX as int, self.denom as int, u64::MAX as int);
            lemma_mul_nonnegative(self.numer as int, other.denom as int);
            lemma_mul_nonnegative(other.numer as int, self.denom as int);
            assert(u64::MAX as int * u64::MAX as int <= u128::MAX) by (nonlinear_arith);
        }
        (self.numer as u128) * (other.denom as u128) == (other.numer as u128) * (self.denom as u128)
    }
}

/// Dividing both positive parts by their greatest common divisor keeps them
/// positive and keeps the value.
pub proof fn lemma_reduce_keeps_value(n: nat, d: nat)
    requires
        n >= 1,
        d >= 1,
    ensures
        gcd(n, d) >= 1,
        n / gcd(n, d) >= 1,
        d / gcd(n, d) >= 1,
        n / gcd(n, d) <= n,
        d / gcd(n, d) <= d,
        same_value((n / gcd(n, d)) as int, (d / gcd(n, d)) as int, n as int, d as int),
{
    let g = gcd(n, d);
    lemma_gcd_positive(n, d);
    lemma_gcd_divides(n, d);
    lemma_div_exact(g, n);
    lemma_div_exact(g, d);
    let a = n / g;
    let b = d / g;
    assert(a >= 1) by (nonlinear_arith)
        requires
            n == g * a,
            n >= 1,
            g >= 1,
    ;
    assert(b >= 1) by (nonlinear_arith)
        requires
            d == g * b,
            d >= 1,
            g >= 1,
    ;
    assert(a <= n) by (nonlinear_arith)
        requires
            n == g * a,
            g >= 1,
    ;
    assert(b <= d) by (nonlinear_arith)
        requires
            d == g * b,
            g >= 1,
    ;
    assert(a * d == n * b) by (nonlinear_arith)
        requires
            n == g * a,
            d == g * b,
    ;
}

} // verus!
