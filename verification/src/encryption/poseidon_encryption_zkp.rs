//! What the succinct proof of an encryption speaks of.

use crate::bigint::BigNat;
use crate::encryptor::encryption::cipher::{
    cipher_words, encrypted_str_to_fr_slices, is_cipher_text, CIPHER_SIZE,
};
use crate::encryptor::grain::fe_views;
use crate::field::Fe;
use crate::poseidon::hash::types::PoseidonHashValue;
use vstd::prelude::*;
use vstd::string::StringSliceAdditionalSpecFns;
use vstd::utf8::encode_utf8;

verus! {

/// The public pair of the encryption's proof: the cipher text in decimal
/// and the digest that keyed it.
#[derive(Debug, Clone)]
pub struct PoseidonEncryptionPublicInput {
    pub encrypted_data: String,
    pub k_hash_value: PoseidonHashValue,
}

/// The secret of the encryption's proof: the text and the puzzle's solution.
#[derive(Debug, Clone)]
pub struct PoseidonEncryptionSecretInput {
    pub data: String,
    pub k: BigNat,
}

/// The instance of the encryption's proof, in the order in which the circuit
/// exposes it: the words of the cipher text, then the two words of the
/// digest.
pub open spec fn encryption_instance(h0: nat, h1: nat, cipher: Seq<nat>) -> Seq<nat> {
    cipher + seq![h0, h1]
}

/// The instance that the succinct prover and verifier are handed for a
/// public pair, if the digest is made of field elements and the cipher text
/// is well formed.
pub fn poseidon_encryption_public_inputs(input: &PoseidonEncryptionPublicInput) -> (inputs:
    Option<Vec<Fe>>)
    ensures
        inputs is Some <==> input.k_hash_value.is_key() && is_cipher_text(
            encode_utf8(input.encrypted_data@),
        ),
        inputs matches Some(v) ==> fe_views(v@) == encryption_instance(
            input.k_hash_value.value(0),
            input.k_hash_value.value(1),
            cipher_words(encode_utf8(input.encrypted_data@)),
        ),
{
    let key = match input.k_hash_value.to_key() {
        None => {
            return None;
        },
        Some(key) => key,
    };
    let words = match encrypted_str_to_fr_slices(input.encrypted_data.as_str()) {
        None => {
            return None;
        },
        Some(words) => words,
    };
    let mut public_inputs: Vec<Fe> = Vec::new();
    let mut i: usize = 0;
    while i < CIPHER_SIZE
        invariant
            i <= CIPHER_SIZE,
            public_inputs.len() == i,
            forall|k: int| 0 <= k < i ==> (#[trigger] public_inputs@[k]) == words@[k],
        decreases CIPHER_SIZE - i,
    {
        public_inputs.push(words[i]);
        i = i + 1;
    }
    public_inputs.push(key[0]);
    public_inputs.push(key[1]);
    proof {
        let want = encryption_instance(
            input.k_hash_value.value(0),
            input.k_hash_value.value(1),
            cipher_words(encode_utf8(input.encrypted_data@)),
        );
        assert forall|k: int| 0 <= k < want.len() implies fe_views(public_inputs@)[k]
            == want[k] by {
            if k < CIPHER_SIZE {
                assert(public_inputs@[k] == words@[k]);
                assert(fe_views(words@)[k] == words@[k]@);
            }
        }
        assert(fe_views(public_inputs@) =~= want);
    }
    Some(public_inputs)
}

} // verus!
