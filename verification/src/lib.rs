//! A MiMC7 hash library over the BN254 scalar field.
//!
//! The library provides the single-block MiMC7 compression function,
//! the chained multi-element hash, a byte-buffer adapter, and the
//! deterministic derivation of the round constants from a seed.

pub mod bytes;
pub mod field;
pub mod mimc;
