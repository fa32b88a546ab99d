//! Divisibility on the natural numbers and the greatest common divisor as a
//! mathematical notion: the common divisor that every common divisor divides.

use vstd::prelude::*;
use vstd::arithmetic::div_mod::lemma_fundamental_div_mod;

verus! {

/// `n` is `d` taken `k` times.
pub open spec fn is_product(n: int, d: int, k: int) -> bool {
    n == d * k
}

/// `d` divides `n`: some whole number of `d`s makes `n`. Zero divides only zero.
pub open spec fn divides(d: nat, n: nat) -> bool {
    exists|k: int| #[trigger] is_product(n as int, d as int, k)
}

/// `d` divides both `a` and `b`.
pub open spec fn is_common_divisor(d: nat, a: nat, b: nat) -> bool {
    divides(d, a) && divides(d, b)
}

/// `g` is a common divisor of `a` and `b` that every common divisor divides.
/// For `a` and `b` not both zero this is the largest common divisor; for
/// zero and zero it is zero.
pub open spec fn is_gcd(a: nat, b: nat, g: nat) -> bool {
    &&& is_common_divisor(g, a, b)
    &&& forall|d: nat| #[trigger] is_common_divisor(d, a, b) ==> divides(d, g)
}

/// The greatest common divisor of `a` and `b`.
pub open spec fn greatest_common_divisor(a: nat, b: nat) -> nat {
    choose|g: nat| is_gcd(a, b, g)
}

/// `a` and `b` have no common divisor but 1.
pub open spec fn are_coprime(a: nat, b: nat) -> bool {
    greatest_common_divisor(a, b) == 1
}

/// Every number divides itself and zero.
pub proof fn lemma_divides_self_and_zero(d: nat)
    ensures
        divides(d, d),
        divides(d, 0),
{
    assert(is_product(d as int, d as int, 1));
    assert(is_product(0, d as int, 0));
}

/// Two natural numbers that divide each other are equal.
pub proof fn lemma_divides_antisymmetric(m: nat, n: nat)
    requires
        divides(m, n),
        divides(n, m),
    ensures
        m == n,
{
    let k = choose|k: int| is_product(n as int, m as int, k);
    let j = choose|j: int| is_product(m as int, n as int, j);
    assert(m == n) by (nonlinear_arith)
        requires
            n == m * k,
            m == n * j,
            0 <= m,
            0 <= n,
    ;
}

/// What divides two numbers divides every combination `x * s + y * t` of them.
pub proof fn lemma_divides_combination(d: nat, x: nat, y: nat, s: int, t: int)
    requires
        divides(d, x),
        divides(d, y),
        0 <= x * s + y * t,
    ensures
        divides(d, (x * s + y * t) as nat),
{
    let k = choose|k: int| is_product(x as int, d as int, k);
    let j = choose|j: int| is_product(y as int, d as int, j);
    assert(x * s + y * t == d * (k * s + j * t)) by (nonlinear_arith)
        requires
            x == d * k,
            y == d * j,
    ;
    assert(is_product(x * s + y * t, d as int, k * s + j * t));
}

/// Only 1 divides 1.
pub proof fn lemma_divides_one(d: nat)
    requires
        divides(d, 1),
    ensures
        d == 1,
{
    let k = choose|k: int| is_product(1, d as int, k);
    assert(d == 1) by (nonlinear_arith)
        requires
            1 == d * k,
            0 <= d,
    ;
}

/// The common divisors of `a` and `b` are those of `b` and the remainder of
/// `a` by `b`.
pub proof fn lemma_common_divisor_rem(d: nat, a: nat, b: nat)
    requires
        b > 0,
    ensures
        is_common_divisor(d, a, b) <==> is_common_divisor(d, b, a % b),
{
    let q = (a / b) as int;
    let r = a % b;
    lemma_fundamental_div_mod(a as int, b as int);
    assert(a == b * q + r);
    if is_common_divisor(d, a, b) {
        assert(r == a * 1 + b * (-q)) by (nonlinear_arith)
            requires
                a == b * q + r,
        ;
        lemma_divides_combination(d, a, b, 1, -q);
    }
    if is_common_divisor(d, b, r) {
        assert(a == b * q + r * 1) by (nonlinear_arith)
            requires
                a == b * q + r,
        ;
        lemma_divides_combination(d, b, r, q, 1);
    }
}

/// One step of Euclid's algorithm keeps the greatest common divisor.
pub proof fn lemma_is_gcd_rem(a: nat, b: nat, g: nat)
    requires
        b > 0,
    ensures
        is_gcd(a, b, g) <==> is_gcd(b, a % b, g),
{
    let r = a % b;
    lemma_common_divisor_rem(g, a, b);
    if is_gcd(a, b, g) {
        assert forall|d: nat| #[trigger] is_common_divisor(d, b, r) implies divides(d, g) by {
            lemma_common_divisor_rem(d, a, b);
        }
    }
    if is_gcd(b, r, g) {
        assert forall|d: nat| #[trigger] is_common_divisor(d, a, b) implies divides(d, g) by {
            lemma_common_divisor_rem(d, a, b);
        }
    }
}

/// Of a number and zero, the number is the greatest common divisor.
pub proof fn lemma_is_gcd_zero(a: nat)
    ensures
        is_gcd(a, 0, a),
        is_gcd(0, a, a),
{
    lemma_divides_self_and_zero(a);
}

/// The order of the two numbers does not matter.
pub proof fn lemma_is_gcd_symmetric(a: nat, b: nat, g: nat)
    ensures
        is_gcd(a, b, g) <==> is_gcd(b, a, g),
{
    if is_gcd(a, b, g) {
        assert forall|d: nat| #[trigger] is_common_divisor(d, b, a) implies divides(d, g) by {
            assert(is_common_divisor(d, a, b));
        }
    }
    if is_gcd(b, a, g) {
        assert forall|d: nat| #[trigger] is_common_divisor(d, a, b) implies divides(d, g) by {
            assert(is_common_divisor(d, b, a));
        }
    }
}

/// Two numbers have at most one greatest common divisor.
pub proof fn lemma_is_gcd_unique(a: nat, b: nat, g: nat, h: nat)
    requires
        is_gcd(a, b, g),
        is_gcd(a, b, h),
    ensures
        g == h,
{
    assert(is_common_divisor(g, a, b));
    assert(is_common_divisor(h, a, b));
    lemma_divides_antisymmetric(g, h);
}

/// Every two numbers have a greatest common divisor.
pub proof fn lemma_is_gcd_exists(a: nat, b: nat)
    ensures
        exists|g: nat| is_gcd(a, b, g),
    decreases b,
{
    if b == 0 {
        lemma_is_gcd_zero(a);
    } else {
        let r = a % b;
        lemma_is_gcd_exists(b, r);
        let g = choose|g: nat| is_gcd(b, r, g);
        lemma_is_gcd_rem(a, b, g);
    }
}

/// `greatest_common_divisor(a, b)` is the one number that `is_gcd` holds of.
pub proof fn lemma_gcd_characterization(a: nat, b: nat, g: nat)
    ensures
        is_gcd(a, b, g) <==> g == greatest_common_divisor(a, b),
{
    lemma_is_gcd_exists(a, b);
    if is_gcd(a, b, g) {
        lemma_is_gcd_unique(a, b, g, greatest_common_divisor(a, b));
    }
}

/// The greatest common divisor of a number and zero is the number, on
/// either side.
pub proof fn lemma_gcd_zero(a: nat)
    ensures
        greatest_common_divisor(a, 0) == a,
        greatest_common_divisor(0, a) == a,
{
    lemma_is_gcd_zero(a);
    lemma_gcd_characterization(a, 0, a);
    lemma_gcd_characterization(0, a, a);
}

/// For a positive `b`, the greatest common divisor of `a` and `b` is that of
/// `b` and the remainder of `a` by `b`.
pub proof fn lemma_gcd_rem(a: nat, b: nat)
    requires
        b > 0,
    ensures
        greatest_common_divisor(a, b) == greatest_common_divisor(b, a % b),
{
    let g = greatest_common_divisor(b, a % b);
    lemma_gcd_characterization(b, a % b, g);
    lemma_is_gcd_rem(a, b, g);
    lemma_gcd_characterization(a, b, g);
}

/// The greatest common divisor does not depend on the order of the numbers.
pub proof fn lemma_gcd_symmetric(a: nat, b: nat)
    ensures
        greatest_common_divisor(a, b) == greatest_common_divisor(b, a),
{
    let g = greatest_common_divisor(a, b);
    lemma_gcd_characterization(a, b, g);
    lemma_is_gcd_symmetric(a, b, g);
    lemma_gcd_characterization(b, a, g);
}

/// Every number is coprime to 1.
pub proof fn lemma_gcd_one(a: nat)
    ensures
        greatest_common_divisor(a, 1) == 1,
        greatest_common_divisor(1, a) == 1,
{
    lemma_divides_self_and_zero(1);
    assert(is_product(a as int, 1, a as int));
    assert(divides(1, a));
    assert forall|d: nat| #[trigger] is_common_divisor(d, a, 1) implies divides(d, 1) by {}
    assert(is_gcd(a, 1, 1));
    lemma_gcd_characterization(a, 1, 1);
    lemma_gcd_symmetric(a, 1);
}

} // verus!
