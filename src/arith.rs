//! Integer helpers shared by the exact number types: greatest common divisor and a
//! checked power computed by repeated squaring.
use vstd::arithmetic::div_mod::*;
use vstd::arithmetic::mul::*;
use vstd::arithmetic::power::*;
use vstd::prelude::*;

verus! {

/// Greatest common divisor by Euclid's algorithm.
pub open spec fn gcd(a: nat, b: nat) -> nat
    decreases b,
{
    if b == 0 {
        a
    } else {
        gcd(b, a % b)
    }
}

/// `g` divides `a` (zero divides only zero).
pub open spec fn divides(g: nat, a: nat) -> bool {
    exists|k: nat| a == #[trigger] (g * k)
}

proof fn lemma_divides_combination(g: nat, x: nat, y: nat, q: nat)
    requires
        divides(g, x),
        divides(g, y),
    ensures
        divides(g, x * q + y),
{
    let i = choose|i: nat| x == #[trigger] (g * i);
    let j = choose|j: nat| y == #[trigger] (g * j);
    assert(x * q + y == g * (i * q + j)) by (nonlinear_arith)
        requires
            x == g * i,
            y == g * j,
    ;
}

/// The greatest common divisor divides both arguments.
pub proof fn lemma_gcd_divides(a: nat, b: nat)
    ensures
        divides(gcd(a, b), a),
        divides(gcd(a, b), b),
    decreases b,
{
    if b == 0 {
        assert(a == a * 1);
        assert(0 == a * 0);
    } else {
        lemma_gcd_divides(b, a % b);
        let g = gcd(a, b);
        lemma_fundamental_div_mod(a as int, b as int);
        lemma_div_pos_is_pos(a as int, b as int);
        lemma_mod_pos_bound(a as int, b as int);
        let q = (a / b) as nat;
        assert(a == b * q + a % b) by {
            lemma_mul_is_commutative(b as int, q as int);
        }
        lemma_divides_combination(g, b, a % b, q);
        assert(b * q == q * b) by {
            lemma_mul_is_commutative(b as int, q as int);
        }
    }
}

/// The greatest common divisor of a positive number and anything is positive.
pub proof fn lemma_gcd_positive(a: nat, b: nat)
    requires
        a > 0 || b > 0,
    ensures
        gcd(a, b) > 0,
    decreases b,
{
    if b != 0 {
        lemma_gcd_positive(b, a % b);
    }
}

/// Dividing by a divisor is exact.
pub proof fn lemma_div_exact(g: nat, a: nat)
    requires
        g > 0,
        divides(g, a),
    ensures
        a == g * (a / g),
{
    let k = choose|k: nat| a == #[trigger] (g * k);
    lemma_div_multiples_vanish(k as int, g as int);
}

/// Computes `gcd(a, b)`.
pub fn gcd_u64(a: u64, b: u64) -> (r: u64)
    ensures
        r == gcd(a as nat, b as nat),
{
    let mut x: u64 = a;
    let mut y: u64 = b;
    while y != 0
        invariant
            gcd(x as nat, y as nat) == gcd(a as nat, b as nat),
        decreases y,
    {
        let t = x % y;
        x = y;
        y = t;
    }
    x
}

/// `b` raised to `e`, or `None` when that exceeds `u64::MAX`.
///
/// Computed by repeated squaring; every intermediate value is at most the result,
/// so it fails exactly when the result does not fit.
pub fn checked_pow_u64(b: u64, e: u32) -> (r: Option<u64>)
    requires
        b >= 1,
    ensures
        r is Some <==> pow(b as int, e as nat) <= u64::MAX,
        r matches Some(v) ==> v == pow(b as int, e as nat),
{
    let mut acc: u64 = 1;
    let mut base: u64 = b;
    let mut k: u32 = e;
    let ghost total = pow(b as int, e as nat);
    proof {
        lemma_pow1(b as int);
        lemma_pow0(b as int);
        if e > 0 {
            lemma_pow_increases(b as nat, 1, e as nat);
        }
    }
    while k > 0
        invariant
            base >= 1,
            acc >= 1,
            total == pow(b as int, e as nat),
            total == acc * pow(base as int, k as nat),
            k > 0 ==> base <= total,
        decreases k,
    {
        proof {
            lemma_pow_positive(base as int, k as nat);
        }
        if k % 2 == 1 {
            let ghost rest = pow(base as int, (k - 1) as nat);
            proof {
                lemma_pow_adds(base as int, 1, (k - 1) as nat);
                lemma_pow1(base as int);
                lemma_pow_positive(base as int, (k - 1) as nat);
                lemma_mul_strictly_positive(acc as int, base as int);
                assert(total == (acc * base) * rest) by {
                    lemma_mul_is_associative(acc as int, base as int, rest);
                }
                lemma_mul_increases(rest, acc * base);
                lemma_mul_is_commutative(rest, acc * base);
            }
            match acc.checked_mul(base) {
                Some(v) => {
                    acc = v;
                },
                None => {
                    return None;
                },
            }
            k = k - 1;
        }
        // Here k is even.
        let ghost half = (k / 2) as nat;
        proof {
            lemma_pow_multiplies(base as int, 2, half);
            lemma_square_is_pow2(base as int);
            assert(2 * half == k as nat);
        }
        k = k / 2;
        if k > 0 {
            proof {
                let sq = base * base;
                lemma_mul_increases(base as int, base as int);
                lemma_pow_positive(sq, half);
                lemma_pow_increases(sq as nat, 1, half);
                lemma_pow1(sq);
                lemma_mul_increases(acc as int, pow(sq, half));
                lemma_mul_is_commutative(acc as int, pow(sq, half));
            }
            match base.checked_mul(base) {
                Some(v) => {
                    base = v;
                },
                None => {
                    return None;
                },
            }
        }
    }
    proof {
        lemma_pow0(base as int);
    }
    Some(acc)
}

} // verus!
