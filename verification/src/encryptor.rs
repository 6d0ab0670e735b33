//! The sponge over the permutation: a hash and a cipher that share one core.

pub mod chip;
pub mod encryption;
pub mod encryptor;
pub mod grain;
pub mod hash;
pub mod permutation;
pub mod spec;
