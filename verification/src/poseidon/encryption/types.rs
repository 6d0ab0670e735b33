//! The key of the Poseidon cipher.

use crate::field::Fe;
use vstd::prelude::*;

verus! {

/// A symmetric key: two field elements.
#[derive(Clone, Copy, Debug)]
pub struct PoseidonEncryptionKey {
    pub key0: Fe,
    pub key1: Fe,
}

impl PoseidonEncryptionKey {
    /// The key whose two elements are zero.
    pub fn init() -> (key: Self)
        ensures
            key.key0@ == 0,
            key.key1@ == 0,
    {
        PoseidonEncryptionKey { key0: Fe::zero(), key1: Fe::zero() }
    }

    /// Replaces both elements of the key.
    pub fn set_key(&mut self, k0: Fe, k1: Fe)
        ensures
            final(self).key0 == k0,
            final(self).key1 == k1,
    {
        self.key0 = k0;
        self.key1 = k1;
    }
}

impl Default for PoseidonEncryptionKey {
    fn default() -> (key: Self)
        ensures
            key.key0@ == 0,
            key.key1@ == 0,
    {
        PoseidonEncryptionKey::init()
    }
}

} // verus!
