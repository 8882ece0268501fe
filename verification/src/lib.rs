//! Cache-efficient dense-matrix kernels and supporting integer arithmetic.
//!
//! The heart of the crate is a set of cache-oblivious matrix algorithms:
//! in-place transposition of square row-major buffers, an out-of-place
//! `Matrix` transpose, and three interchangeable matrix-multiplication
//! strategies that serve as a mutual correctness oracle.  Around that core
//! sit small verified kernels for fast modular arithmetic — Lemire
//! reduction, binary exponentiation, extended-GCD modular inverses and
//! Montgomery multiplication — plus the merge step of an external sort and
//! a pair of equivalent summation loops.

pub mod arithmetic;
pub mod cache_oblivious;
pub mod exgcd;
pub mod external_sorting;
pub mod loops_and_conditionals;
pub mod montgomery_multiplication;
pub mod number_theory;
