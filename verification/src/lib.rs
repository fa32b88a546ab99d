//! Modular multiplicative inverses by the extended Euclidean algorithm.
//!
//! The crate computes, for a number `a` and a modulus `b`, the one `x` below
//! `b` with `a * x` congruent to 1 modulo `b`, and reports a typed failure
//! where no such `x` exists. Every function carries a contract over the
//! mathematical notions of `divisibility`, and every contract is proved.

pub mod divisibility;
pub mod gcd;
pub mod inverse;
