//! What the succinct proof of a key speaks of.

use crate::big_integer::carry::lemma_digits_value;
use crate::big_integer::{decompose_big, fits_in_limbs};
use crate::bigint::BigNat;
use crate::encryptor::grain::fe_views;
use crate::encryptor::hash::types::HashValue;
use crate::encryptor::hash::{value_limbs, BITS_LEN, LIMB_COUNT, LIMB_WIDTH};
use crate::field::Fe;
use vstd::arithmetic::div_mod::lemma_small_mod;
use vstd::arithmetic::power2::pow2;
use vstd::prelude::*;

verus! {

/// The public pair of the key's proof: the squared secret and the digest of
/// the secret.
#[derive(Debug, Clone)]
pub struct KeyValidationPublicInput {
    pub k_two: BigNat,
    pub k_hash_value: HashValue,
}

/// The secret of the key's proof.
#[derive(Debug, Clone)]
pub struct KeyValidationSecretInput {
    pub k: BigNat,
}

/// The parameter of the key's proof: the modulus.
#[derive(Debug, Clone)]
pub struct KeyValidationParam {
    pub n: BigNat,
}

/// The instance of the key's proof, in the order in which the circuit
/// exposes it: the limbs of the squared secret, then the two words of the
/// digest.
pub open spec fn key_validation_instance(k_two: nat, h0: nat, h1: nat) -> Seq<nat> {
    value_limbs(k_two) + seq![h0, h1]
}

/// The instance fixes what it was made from: two instances are equal only
/// if the squared secrets and the digests are.
pub proof fn lemma_instance_binds(a: nat, a0: nat, a1: nat, b: nat, b0: nat, b1: nat)
    requires
        a < pow2(BITS_LEN as nat),
        b < pow2(BITS_LEN as nat),
        key_validation_instance(a, a0, a1) == key_validation_instance(b, b0, b1),
    ensures
        a == b,
        a0 == b0,
        a1 == b1,
{
    let x = key_validation_instance(a, a0, a1);
    let y = key_validation_instance(b, b0, b1);
    assert(x[LIMB_COUNT as int] == a0 && y[LIMB_COUNT as int] == b0);
    assert(x[LIMB_COUNT + 1] == a1 && y[LIMB_COUNT + 1] == b1);
    assert(x.take(LIMB_COUNT as int) =~= value_limbs(a));
    assert(y.take(LIMB_COUNT as int) =~= value_limbs(b));
    lemma_digits_value(a, LIMB_COUNT as nat, LIMB_WIDTH as nat);
    lemma_digits_value(b, LIMB_COUNT as nat, LIMB_WIDTH as nat);
    assert((LIMB_WIDTH as nat) * (LIMB_COUNT as nat) == BITS_LEN as nat);
    lemma_small_mod(a, pow2(BITS_LEN as nat));
    lemma_small_mod(b, pow2(BITS_LEN as nat));
}

/// The instance that the succinct prover and verifier are handed for a
/// public pair, if the squared secret has at most [`BITS_LEN`] bits and the
/// digest is made of field elements.
pub fn key_validation_public_inputs(input: &KeyValidationPublicInput) -> (inputs: Option<
    Vec<Fe>,
>)
    ensures
        inputs is Some <==> input.k_two@ < pow2(BITS_LEN as nat) && input.k_hash_value.is_key(),
        inputs matches Some(v) ==> fe_views(v@) == key_validation_instance(
            input.k_two@,
            input.k_hash_value.value(0),
            input.k_hash_value.value(1),
        ),
{
    proof {
        assert((LIMB_WIDTH as nat) * (LIMB_COUNT as nat) == BITS_LEN as nat);
    }
    if !fits_in_limbs(&input.k_two, LIMB_COUNT, LIMB_WIDTH) {
        return None;
    }
    let key = match input.k_hash_value.to_key() {
        None => {
            return None;
        },
        Some(key) => key,
    };
    let mut public_inputs = decompose_big(&input.k_two, LIMB_COUNT, LIMB_WIDTH);
    let ghost limbs = fe_views(public_inputs@);
    public_inputs.push(key[0]);
    public_inputs.push(key[1]);
    proof {
        assert(fe_views(public_inputs@) =~= limbs + seq![key@[0]@, key@[1]@]);
    }
    Some(public_inputs)
}

} // verus!
