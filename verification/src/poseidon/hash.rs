//! The digest of the Poseidon hash, and the chip that computes it.

pub mod chip;
pub mod types;
