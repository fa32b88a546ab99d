//! Euclid's algorithm and the coprimality test built on it.

use vstd::prelude::*;
use crate::divisibility::{
    are_coprime, greatest_common_divisor, is_gcd, lemma_gcd_characterization, lemma_gcd_rem,
    lemma_gcd_zero,
};

verus! {

/// The greatest common divisor of `a` and `b`, by Euclid's algorithm.
pub fn gcd(a: u64, b: u64) -> (g: u64)
    ensures
        g == greatest_common_divisor(a as nat, b as nat),
        is_gcd(a as nat, b as nat, g as nat),
        b == 0 ==> g == a,
        a == 0 ==> g == b,
    decreases b,
{
    proof {
        lemma_gcd_zero(a as nat);
        lemma_gcd_zero(b as nat);
        lemma_gcd_characterization(
            a as nat,
            b as nat,
            greatest_common_divisor(a as nat, b as nat),
        );
    }
    if b == 0 {
        a
    } else {
        proof {
            lemma_gcd_rem(a as nat, b as nat);
        }
        gcd(b, a % b)
    }
}

/// Whether `a` and `b` are relatively prime.
pub fn is_relatively_prime(a: u64, b: u64) -> (coprime: bool)
    ensures
        coprime <==> greatest_common_divisor(a as nat, b as nat) == 1,
        coprime <==> are_coprime(a as nat, b as nat),
{
    gcd(a, b) == 1
}

} // verus!
