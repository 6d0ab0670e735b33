//! Encryption with the sponge.

pub mod chip;
pub mod cipher;
pub mod types;
