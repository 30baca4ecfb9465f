//! Rational-root search for single-variable polynomials with integer
//! coefficients, together with the prime factorization it is built on.
//!
//! Every executable function carries a contract stated over the mathematical
//! definitions in [`primes`]; the contracts are checked by Verus.

pub mod error;
pub mod primes;
pub mod factoring_and_primes;
pub mod polynomial_object;
pub mod evaluation;
