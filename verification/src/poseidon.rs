//! The names under which the Poseidon circuits know the digest and the key.

pub mod encryption;
pub mod hash;
