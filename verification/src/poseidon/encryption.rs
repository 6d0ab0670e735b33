//! The key of the Poseidon cipher.

pub mod types;
