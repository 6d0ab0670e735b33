//! The digest of the Poseidon hash: two field elements, as bytes.

use crate::bigint::le_value;
use crate::field::{modulus, Fe};
use vstd::prelude::*;

verus! {

/// Two field elements, each as 32 little-endian bytes.
#[derive(Debug, Clone, Copy)]
pub struct PoseidonHashValue(pub(crate) [[u8; 32]; 2]);

impl PoseidonHashValue {
    /// The bytes of element `index`.
    pub closed spec fn word(&self, index: int) -> Seq<u8> {
        self.0@[index]@
    }

    /// The number that the bytes of element `index` spell.
    pub open spec fn value(&self, index: int) -> nat {
        le_value(self.word(index))
    }

    /// The digest made of the two given elements.
    pub fn new(key: [[u8; 32]; 2]) -> (hash: Self)
        ensures
            hash.word(0) == key@[0]@,
            hash.word(1) == key@[1]@,
    {
        PoseidonHashValue(key)
    }

    /// The bytes of element `index`, which is 0 or 1.
    pub fn get(&self, index: usize) -> (bytes: &[u8; 32])
        requires
            index < 2,
        ensures
            bytes@ == self.word(index as int),
    {
        &self.0[index]
    }
}

impl PoseidonHashValue {
    /// Whether both elements are below the order of the field.
    pub open spec fn is_key(&self) -> bool {
        self.value(0) < modulus() && self.value(1) < modulus()
    }

    /// The two elements as a key, if both are below the order of the field.
    pub fn to_key(&self) -> (key: Option<[Fe; 2]>)
        ensures
            key is Some <==> self.is_key(),
            key matches Some(k) ==> k@[0]@ == self.value(0) && k@[1]@ == self.value(1),
    {
        match Fe::from_bytes(self.get(0)) {
            None => None,
            Some(key0) => match Fe::from_bytes(self.get(1)) {
                None => None,
                Some(key1) => Some([key0, key1]),
            },
        }
    }

    /// The digest whose elements are the two given ones.
    pub fn from_elements(first: &Fe, second: &Fe) -> (hash: Self)
        ensures
            hash.value(0) == first@,
            hash.value(1) == second@,
            hash.is_key(),
    {
        PoseidonHashValue::new([first.to_bytes(), second.to_bytes()])
    }
}

impl Default for PoseidonHashValue {
    fn default() -> (hash: Self)
        ensures
            hash.value(0) == 0,
            hash.value(1) == 0,
    {
        let zero: [u8; 32] = [0u8; 32];
        proof {
            crate::bigint::lemma_le_value_zeros(zero@);
        }
        PoseidonHashValue([zero, zero])
    }
}

} // verus!
