//! Primes up to a bound by the sieve of Eratosthenes.
//!
//! [`sieve_of_eratosthenes`] builds a marking table with one flag per integer
//! from zero to the bound, and [`sieve_to_primes`] lists the positions of a
//! table whose flag is set. Both are verified against the definition of
//! primality in [`primality`], and [`laws`] proves what holds of the two
//! together.
pub mod extract;
pub mod isqrt;
pub mod laws;
pub mod primality;
pub mod sieve;

pub use extract::sieve_to_primes;
pub use sieve::sieve_of_eratosthenes;
