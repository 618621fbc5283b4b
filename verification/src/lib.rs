//! Shamir's secret sharing over GF(256).
//!
//! A secret byte string is split into `n` shares such that any `t` of them
//! recover it exactly, via per-byte random polynomials and Lagrange
//! interpolation.  A share can travel as a hex string protected by
//! Reed-Solomon parity bytes.

pub mod gf256;
pub mod shamir;
pub mod codec;
pub mod lagrange;
