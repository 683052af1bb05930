//! An interactive-proof engine over the BLS12-381 scalar field: multilinear
//! extension tables, the generic sum-check protocol for a sparse
//! multivariate polynomial, and the single-layer two-phase reduction of the
//! linear GKR protocol, which chains two sum-check sessions and leaves the
//! caller a final evaluation subclaim.

pub mod field;
pub mod ml_extension;
pub mod protocol;
pub mod sumcheck;
pub mod prover;
pub mod gkr_verifier;
