//! Encryption of text under the digest of a puzzle's solution.

pub mod poseidon_encryption;
pub mod poseidon_encryption_circuit;
pub mod poseidon_encryption_zkp;
pub mod round_trip;
