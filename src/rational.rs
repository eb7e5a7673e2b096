//! Signed exact fractions.
use crate::arith::{gcd, gcd_u64, lemma_div_exact, lemma_gcd_divides, lemma_gcd_positive};
use crate::notation::{decimal, push_decimal};
use vstd::arithmetic::div_mod::*;
use vstd::arithmetic::mul::*;
use vstd::prelude::*;
use vstd::string::*;

verus! {

/// The fraction `numer / denom`, with a positive denominator.
#[derive(Clone, Copy, Debug, PartialEq, Eq, Structural)]
pub struct Rational {
    pub numer: i64,
    pub denom: i64,
}

/// The magnitude of `n`.
pub open spec fn magnitude(n: int) -> nat {
    if n < 0 {
        (-n) as nat
    } else {
        n as nat
    }
}

/// `n/d` in lowest terms: both divided by the greatest common divisor of `|n|` and `d`.
pub open spec fn reduce(n: int, d: int) -> (int, int) {
    (n / gcd(magnitude(n), d as nat) as int, d / gcd(magnitude(n), d as nat) as int)
}

impl Rational {
    /// The denominator is positive.
    pub open spec fn wf(&self) -> bool {
        self.denom > 0
    }

    /// `numer / denom`, kept as given.
    pub fn new(numer: i64, denom: i64) -> (r: Rational)
        requires
            denom > 0,
        ensures
            r.wf(),
            r.numer == numer && r.denom == denom,
    {
        Rational { numer, denom }
    }

    /// `i / 1`.
    pub fn from_integer(i: i64) -> (r: Rational)
        ensures
            r.wf(),
            r.numer == i && r.denom == 1,
    {
        Rational { numer: i, denom: 1 }
    }

    /// `self + other` over the product of the denominators; `None` when a part
    /// does not fit.
    pub fn add(&self, other: &Rational) -> (r: Option<Rational>)
        requires
            self.wf(),
            other.wf(),
        ensures
            r is Some <==> (i64::MIN <= self.numer * other.denom + other.numer * self.denom <= i64::MAX
                && self.denom * other.denom <= i64::MAX && i64::MIN <= self.numer * other.denom
                <= i64::MAX && i64::MIN <= other.numer * self.denom <= i64::MAX),
            r matches Some(v) ==> v.wf() && v.numer == self.numer * other.denom + other.numer
                * self.denom && v.denom == self.denom * other.denom,
    {
        proof {
            lemma_mul_strictly_positive(self.denom as int, other.denom as int);
        }
        let a = match self.numer.checked_mul(other.denom) {
            Some(a) => a,
            None => {
                return None;
            },
        };
        let b = match other.numer.checked_mul(self.denom) {
            Some(b) => b,
            None => {
                return None;
            },
        };
        let n = match a.checked_add(b) {
            Some(n) => n,
            None => {
                return None;
            },
        };
        let d = match self.denom.checked_mul(other.denom) {
            Some(d) => d,
            None => {
                return None;
            },
        };
        Some(Rational { numer: n, denom: d })
    }

    /// `self - other` over the product of the denominators; `None` when a part
    /// does not fit.
    pub fn sub(&self, other: &Rational) -> (r: Option<Rational>)
        requires
            self.wf(),
            other.wf(),
        ensures
            r is Some <==> (i64::MIN <= self.numer * other.denom - other.numer * self.denom <= i64::MAX
                && self.denom * other.denom <= i64::MAX && i64::MIN <= self.numer * other.denom
                <= i64::MAX && i64::MIN <= other.numer * self.denom <= i64::MAX),
            r matches Some(v) ==> v.wf() && v.numer == self.numer * other.denom - other.numer
                * self.denom && v.denom == self.denom * other.denom,
    {
        proof {
            lemma_mul_strictly_positive(self.denom as int, other.denom as int);
        }
        let a = match self.numer.checked_mul(other.denom) {
            Some(a) => a,
            None => {
                return None;
            },
        };
        let b = match other.numer.checked_mul(self.denom) {
            Some(b) => b,
            None => {
                return None;
            },
        };
        let n = match a.checked_sub(b) {
            Some(n) => n,
            None => {
                return None;
            },
        };
        let d = match self.denom.checked_mul(other.denom) {
            Some(d) => d,
            None => {
                return None;
            },
        };
        Some(Rational { numer: n, denom: d })
    }

    /// The same number in lowest terms; zero becomes `0/1`.
    pub fn reduced(&self) -> (r: Rational)
        requires
            self.wf(),
        ensures
            r.wf(),
            (r.numer as int, r.denom as int) == reduce(self.numer as int, self.denom as int),
            r.numer * self.denom == self.numer * r.denom,
    {
        let n = self.numer;
        let d = self.denom;
        let m: u64 = if n < 0 {
            ((-(n + 1)) as u64) + 1
        } else {
            n as u64
        };
        let g = gcd_u64(m, d as u64);
        let ghost gg = gcd(m as nat, d as nat);
        assert(m as nat == magnitude(n as int));
        proof {
            lemma_gcd_positive(m as nat, d as nat);
            lemma_gcd_divides(m as nat, d as nat);
            lemma_div_exact(gg, m as nat);
            lemma_div_exact(gg, d as nat);
            let a = (m as nat) / gg;
            let b = (d as nat) / gg;
            assert(b >= 1) by (nonlinear_arith)
                requires
                    d == gg * b,
                    d >= 1,
            ;
            assert(b <= d) by (nonlinear_arith)
                requires
                    d == gg * b,
                    gg >= 1,
            ;
            assert(a <= m) by (nonlinear_arith)
                requires
                    m == gg * a,
                    gg >= 1,
            ;
            if n < 0 {
                assert(n == gg * (-a)) by (nonlinear_arith)
                    requires
                        m == gg * a,
                        n == -m,
                ;
                lemma_div_multiples_vanish(-a, gg as int);
                assert((-a) * d == n * b) by (nonlinear_arith)
                    requires
                        n == gg * (-a),
                        d == gg * b,
                ;
            } else {
                assert(a * d == n * b) by (nonlinear_arith)
                    requires
                        n == gg * a,
                        d == gg * b,
                ;
            }
        }
        if g == 1 {
            assert(n as int / 1int == n as int && d as int / 1int == d as int);
            return *self;
        }
        assert(m / g <= m / 2) by {
            lemma_div_is_ordered_by_denominator(m as int, 2, g as int);
        }
        let q = (m / g) as i64;
        let numer = if n < 0 {
            -q
        } else {
            q
        };
        assert(numer as int == n as int / gg as int);
        Rational { numer, denom: (d as u64 / g) as i64 }
    }

    /// The text `numer/denom`, such as `-2/3`.
    pub fn to_string(&self) -> (r: String)
        ensures
            r@ == decimal(self.numer as int) + seq!['/'] + decimal(self.denom as int),
    {
        let mut s = String::new();
        push_decimal(&mut s, self.numer);
        proof {
            reveal_strlit("/");
        }
        s.append("/");
        push_decimal(&mut s, self.denom);
        assert(s@ =~= decimal(self.numer as int) + seq!['/'] + decimal(self.denom as int));
        s
    }
}

} // verus!
