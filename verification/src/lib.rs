//! A small toolkit of number-theoretic building blocks: prime sieving, lazy
//! prime generation, exact prime factorizations with their algebra, memoized
//! chain lengths of the "halve or triple-plus-one" iteration, a few integer
//! sequence and digit helpers, and the sums and searches that a series of
//! number puzzles is answered with.

pub mod collatz;
pub mod decimal;
pub mod divisibility;
pub mod exponents;
pub mod fib;
pub mod primes;
pub mod puzzles;
pub mod triangle;
pub mod utils;
