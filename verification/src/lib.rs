//! Verifiable delay encryption: a time-lock puzzle over a hidden-order group,
//! a sigma protocol that attests the honest derivation of its solution, and a
//! sponge cipher keyed by the digest of that solution.

pub mod big_integer;
pub mod bigint;
pub mod decimal;
pub mod encryption;
pub mod encryptor;
pub mod field;
pub mod modular;
pub mod poseidon;
pub mod rsa;
pub mod strings;
pub mod time_lock_puzzle;
