//! Number theory: greatest common divisors, binomial coefficients, primes
//! and positional notation.
pub mod numeric;
pub mod prime_factorization;
pub mod prime_enumeration;
pub mod combinations;
pub mod base_conversion;
