//! Probabilistic proof-verification primitives over the base field of BLS12-377:
//! Freivalds' matrix-product check, Reed-Solomon fingerprinting, multilinear
//! extensions and Lagrange bases, and the sum-check protocol.
#![allow(non_snake_case)]

pub mod field;
pub mod freivalds;
pub mod matrix;
pub mod lagrange;
pub mod multilinear;
pub mod reed_solomon;
pub mod sumcheck;
pub mod sums;
