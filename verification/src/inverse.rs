//! The modular multiplicative inverse, by the extended Euclidean algorithm.

use vstd::prelude::*;
use vstd::arithmetic::div_mod::{
    lemma_fundamental_div_mod, lemma_mod_multiples_vanish, lemma_small_mod,
};
use crate::divisibility::{
    are_coprime, greatest_common_divisor, lemma_divides_combination, lemma_divides_one,
    lemma_gcd_characterization, lemma_gcd_one, lemma_gcd_rem, lemma_gcd_symmetric,
    lemma_gcd_zero,
};
use crate::gcd::is_relatively_prime;

verus! {

/// Why no inverse was returned.
#[derive(Debug, Clone, Copy, PartialEq, Eq, Structural)]
pub enum InverseError {
    /// `a` has no inverse modulo `b`: the two are not relatively prime.
    NonInvertible { a: u64, b: u64 },
}

/// `x` is the inverse of `a` modulo `b`: it lies below `b`, and `a * x`
/// leaves the remainder that 1 leaves.
pub open spec fn is_modular_inverse(a: nat, b: nat, x: nat) -> bool {
    x < b && (a * x) % b == 1nat % b
}

/// What `modular_multiplicative_inverse` owes for `a` and `b`: the inverse,
/// or, where there is none, the failure that names the two numbers.
pub open spec fn inverse_outcome(a: u64, b: u64, r: Result<u64, InverseError>) -> bool {
    match r {
        Ok(x) => is_modular_inverse(a as nat, b as nat, x as nat),
        Err(e) => {
            &&& e == (InverseError::NonInvertible { a, b })
            &&& forall|x: nat| !is_modular_inverse(a as nat, b as nat, x)
        },
    }
}

/// The state of the extended Euclidean iteration keeps its coefficients
/// small: `x` and `y` have opposite signs, and their magnitudes weigh the
/// two remainders to exactly the modulus `b`.
spec fn coefficients_balanced(x: int, y: int, dividend: int, divisor: int, b: int) -> bool {
    ||| x <= 0 <= y && y * dividend - x * divisor == b
    ||| y <= 0 <= x && x * divisor - y * dividend == b
}

/// A number below `b` whose product with `a` is one more than a multiple of
/// `b` is the inverse of `a`.
pub proof fn lemma_one_more_than_multiple(a: nat, b: nat, x: nat, k: int)
    requires
        x < b,
        a * x == b * k + 1,
    ensures
        is_modular_inverse(a, b, x),
{
    lemma_mod_multiples_vanish(k, 1, b as int);
}

/// Only a number coprime to the modulus has an inverse.
pub proof fn lemma_inverse_implies_coprime(a: nat, b: nat, x: nat)
    requires
        is_modular_inverse(a, b, x),
    ensures
        are_coprime(a, b),
{
    if b == 1 {
        lemma_gcd_one(a);
    } else {
        let g = greatest_common_divisor(a, b);
        lemma_gcd_characterization(a, b, g);
        let k = ((a * x) as int) / (b as int);
        lemma_fundamental_div_mod((a * x) as int, b as int);
        lemma_small_mod(1, b);
        assert(a * x + b * (-k) == 1) by (nonlinear_arith)
            requires
                a * x == b * k + 1,
        ;
        lemma_divides_combination(g, a, b, x as int, -k);
        lemma_divides_one(g);
    }
}

/// A number has at most one inverse modulo `b`.
pub proof fn lemma_inverse_unique(a: nat, b: nat, x1: nat, x2: nat)
    requires
        is_modular_inverse(a, b, x1),
        is_modular_inverse(a, b, x2),
    ensures
        x1 == x2,
{
    let k1 = ((a * x1) as int) / (b as int);
    let k2 = ((a * x2) as int) / (b as int);
    lemma_fundamental_div_mod((a * x1) as int, b as int);
    lemma_fundamental_div_mod((a * x2) as int, b as int);
    if b == 1 {
    } else {
        lemma_small_mod(1, b);
        let m = k1 * x2 - k2 * x1;
        assert(x1 - x2 == b * m) by (nonlinear_arith)
            requires
                a * x1 == b * k1 + 1,
                a * x2 == b * k2 + 1,
                m == k1 * x2 - k2 * x1,
        ;
        assert(m == 0) by (nonlinear_arith)
            requires
                x1 - x2 == b * m,
                -b < x1 - x2 < b,
        ;
    }
}

/// Computing the inverse twice on the same numbers gives the same outcome:
/// whatever meets the contract for `a` and `b` is one value.
pub proof fn lemma_outcome_determined(
    a: u64,
    b: u64,
    r1: Result<u64, InverseError>,
    r2: Result<u64, InverseError>,
)
    requires
        inverse_outcome(a, b, r1),
        inverse_outcome(a, b, r2),
    ensures
        r1 == r2,
{
    match (r1, r2) {
        (Ok(x1), Ok(x2)) => {
            lemma_inverse_unique(a as nat, b as nat, x1 as nat, x2 as nat);
        },
        (Ok(x1), Err(_)) => {
            assert(is_modular_inverse(a as nat, b as nat, x1 as nat));
        },
        (Err(_), Ok(x2)) => {
            assert(is_modular_inverse(a as nat, b as nat, x2 as nat));
        },
        (Err(_), Err(_)) => {},
    }
}

/// One step of the iteration: the product `y * q` stays within the modulus,
/// the new pair of coefficients is balanced again, and with a dividend of
/// at least 2 the coefficient that moves into `x` is below the modulus.
proof fn lemma_balanced_step(x: int, y: int, dividend: int, divisor: int, b: int, q: int, r: int)
    requires
        coefficients_balanced(x, y, dividend, divisor, b),
        divisor > 0,
        q >= 0,
        r >= 0,
        dividend == divisor * q + r,
    ensures
        -b <= y * q <= b,
        coefficients_balanced(y, x - y * q, divisor, r, b),
        dividend >= 2 && b > 0 ==> -b < y < b,
{
    if x <= 0 <= y && y * dividend - x * divisor == b {
        assert(0 <= y * q <= b && y * r - (x - y * q) * divisor == b && (dividend >= 2 && b > 0
            ==> y < b)) by (nonlinear_arith)
            requires
                x <= 0 <= y,
                y * dividend - x * divisor == b,
                divisor > 0,
                q >= 0,
                r >= 0,
                dividend == divisor * q + r,
        ;
    } else {
        assert(-b <= y * q <= 0 && (x - y * q) * divisor - y * r == b && (dividend >= 2 && b > 0
            ==> -b < y)) by (nonlinear_arith)
            requires
                y <= 0 <= x,
                x * divisor - y * dividend == b,
                divisor > 0,
                q >= 0,
                r >= 0,
                dividend == divisor * q + r,
        ;
    }
}

/// One step of the iteration keeps the two remainders combinations of `a`
/// and `b`.
proof fn lemma_combination_step(
    a: int,
    b: int,
    x: int,
    u: int,
    y: int,
    v: int,
    dividend: int,
    divisor: int,
    q: int,
    r: int,
)
    requires
        x * a + u * b == dividend,
        y * a + v * b == divisor,
        dividend == divisor * q + r,
    ensures
        (x - y * q) * a + (u - v * q) * b == r,
{
    assert((x - y * q) * a + (u - v * q) * b == r) by (nonlinear_arith)
        requires
            x * a + u * b == dividend,
            y * a + v * b == divisor,
            dividend == divisor * q + r,
    ;
}

/// The inverse of `a` modulo `b`: the one `x` below `b` for which `a * x`
/// leaves the remainder 1 when divided by `b`. It exists exactly where `a`
/// and `b` are relatively prime; elsewhere the failure names the two
/// numbers. Modulo 1 it is 0.
///
/// The modulus must be at least 1. The coefficients are kept in 128 bits, so
/// every `a` and every such `b` of 64 bits is in range.
pub fn modular_multiplicative_inverse(a: u64, b: u64) -> (r: Result<u64, InverseError>)
    requires
        b >= 1,
    ensures
        inverse_outcome(a, b, r),
        r is Ok <==> are_coprime(a as nat, b as nat),
        b == 1 ==> r == Ok::<u64, InverseError>(0),
{
    if b == 1 {
        proof {
            lemma_gcd_one(a as nat);
        }
        return Ok(0);
    }
    if !is_relatively_prime(a, b) {
        proof {
            assert forall|x: nat| !is_modular_inverse(a as nat, b as nat, x) by {
                if is_modular_inverse(a as nat, b as nat, x) {
                    lemma_inverse_implies_coprime(a as nat, b as nat, x);
                }
            }
        }
        return Err(InverseError::NonInvertible { a, b });
    }
    let mut x: i128 = 0;
    let mut y: i128 = 1;
    let mut dividend: u64 = b;
    let mut divisor: u64 = a;
    let ghost mut u: int = 1;
    let ghost mut v: int = 0;
    proof {
        lemma_gcd_symmetric(a as nat, b as nat);
    }
    while divisor > 0
        invariant
            b >= 2,
            x * a + u * b == dividend,
            y * a + v * b == divisor,
            greatest_common_divisor(dividend as nat, divisor as nat) == 1,
            coefficients_balanced(x as int, y as int, dividend as int, divisor as int, b as int),
            dividend == b || divisor < dividend,
            -b < x < b,
        decreases divisor,
    {
        let q: u64 = dividend / divisor;
        let r: u64 = dividend % divisor;
        proof {
            lemma_fundamental_div_mod(dividend as int, divisor as int);
            lemma_gcd_rem(dividend as nat, divisor as nat);
            lemma_balanced_step(
                x as int,
                y as int,
                dividend as int,
                divisor as int,
                b as int,
                q as int,
                r as int,
            );
            lemma_combination_step(
                a as int,
                b as int,
                x as int,
                u,
                y as int,
                v,
                dividend as int,
                divisor as int,
                q as int,
                r as int,
            );
        }
        let t: i128 = x - y * (q as i128);
        proof {
            let w = u - v * q;
            u = v;
            v = w;
        }
        dividend = divisor;
        divisor = r;
        x = y;
        y = t;
    }
    proof {
        lemma_gcd_zero(dividend as nat);
    }
    if x < 0 {
        x = b as i128 + x;
        proof {
            assert(a * x == b * (a - u) + 1) by (nonlinear_arith)
                requires
                    (x - b) * a + u * b == 1,
            ;
            lemma_one_more_than_multiple(a as nat, b as nat, x as nat, a - u);
        }
    } else {
        proof {
            assert(a * x == b * (-u) + 1) by (nonlinear_arith)
                requires
                    x * a + u * b == 1,
            ;
            lemma_one_more_than_multiple(a as nat, b as nat, x as nat, -u);
        }
    }
    Ok(x as u64)
}

} // verus!
