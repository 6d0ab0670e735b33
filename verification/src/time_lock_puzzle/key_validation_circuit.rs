//! The key-validation circuit on witness values: the secret squared under
//! the modulus, and the digest of the secret, both computed from one witness.

use crate::big_integer::chip::{fits_field, refreshed, BigIntChip};
use crate::big_integer::integer::AssignedInteger;
use crate::big_integer::limb_math::{lemma_pow2_values, product_limbs};
use crate::big_integer::refresh_laws::lemma_product_refreshes;
use crate::big_integer::{decompose_big, fits_in_limbs, increased_limbs, Fresh};
use crate::bigint::BigNat;
use crate::encryptor::grain::fe_views;
use crate::encryptor::hash::{
    hash_limbs, hash_words, value_limbs, BITS_LEN, LIMB_COUNT, LIMB_WIDTH,
};
use crate::encryptor::encryption::cipher::cipher_spec;
use crate::encryptor::encryptor::initial_hash_state;
use crate::field::{modulus, Fe};
use crate::poseidon::hash::chip::PoseidonHashChip;
use crate::rsa::RSAChip;
use crate::time_lock_puzzle::key_validation_zkp::key_validation_instance;
use vstd::arithmetic::power2::{lemma_pow2_pos, pow2};
use vstd::prelude::*;

verus! {

/// The number of bits of a limb of the exponent in the circuit.
pub const EXP_LIMB_BITS: usize = 15;

/// The circuit's witness: the modulus and the secret.
#[derive(Debug, Clone)]
pub struct KeyValidationCircuit {
    pub n: BigNat,
    pub k: BigNat,
}

/// Whether the product of the secret's limbs with themselves can be
/// refreshed with the chunks allotted for the largest such product.
pub open spec fn square_refreshes(k: nat) -> bool {
    refreshed(
        product_limbs(value_limbs(k), value_limbs(k)),
        increased_limbs(LIMB_WIDTH as nat, LIMB_COUNT as nat, LIMB_COUNT as nat),
        LIMB_WIDTH as nat,
    ) is Some
}

/// The square of a secret's limbs can always be refreshed.
pub proof fn lemma_square_refreshes(k: nat)
    ensures
        square_refreshes(k),
{
    let limbs = value_limbs(k);
    lemma_pow2_values();
    lemma_pow2_pos(64);
    assert forall|i: int| 0 <= i < limbs.len() implies #[trigger] limbs[i] < pow2(64) by {
    }
    lemma_product_refreshes(limbs, limbs, LIMB_WIDTH as nat);
}

/// Limbs of [`LIMB_WIDTH`] bits, [`LIMB_COUNT`] to an integer, fit the
/// field.
pub proof fn lemma_standard_limbs_fit()
    ensures
        fits_field(LIMB_WIDTH as nat, LIMB_COUNT as nat),
{
    lemma_pow2_values();
    let b = pow2(64);
    assert(b * b == 0x1_0000_0000_0000_0000_0000_0000_0000_0000) by (nonlinear_arith)
        requires
            b == 0x1_0000_0000_0000_0000,
    ;
}

/// The chips of the circuit.
pub struct KeyValidationChip {
}

impl KeyValidationChip {
    /// The RSA gadget for integers of `bits_len` bits.
    pub fn new_rsa(bits_len: usize, exp_limb_bits: usize) -> (chip: RSAChip)
        ensures
            chip.bits_len == bits_len,
            chip.exp_limb_bits == exp_limb_bits,
    {
        RSAChip { bits_len, exp_limb_bits }
    }

    /// The hashing chip, in its initial state.
    pub fn new_hash() -> (chip: PoseidonHashChip)
        ensures
            chip.poseidon_chip.wf(),
            chip.poseidon_chip@.spec == cipher_spec(),
            chip.poseidon_chip@.state == initial_hash_state(),
            chip.poseidon_chip@.queue == Seq::<nat>::empty(),
    {
        PoseidonHashChip::new()
    }
}

impl KeyValidationCircuit {
    /// The circuit without a witness: modulus and secret are zero.
    pub fn create_empty_circuit() -> (circuit: Self)
        ensures
            circuit.n@ == 0,
            circuit.k@ == 0,
    {
        KeyValidationCircuit { n: BigNat::zero(), k: BigNat::zero() }
    }

    /// A copy of the circuit.
    pub fn without_witnesses(&self) -> (circuit: Self)
        ensures
            circuit.n@ == self.n@,
            circuit.k@ == self.k@,
    {
        KeyValidationCircuit { n: self.n.clone(), k: self.k.clone() }
    }

    /// The instance that the circuit exposes for its witness: the limbs of
    /// the secret squared under the modulus, then the two words of the
    /// secret's digest. There is none when the modulus is zero, or when
    /// modulus or secret have more than [`BITS_LEN`] bits.
    pub fn instance(&self) -> (instance: Option<Vec<Fe>>)
        ensures
            instance is Some <==> 0 < self.n@ < pow2(BITS_LEN as nat) && self.k@ < pow2(
                BITS_LEN as nat,
            ),
            instance matches Some(v) ==> fe_views(v@) == key_validation_instance(
                ((self.k@ * self.k@) % self.n@) as nat,
                hash_words(self.k@).0,
                hash_words(self.k@).1,
            ),
    {
        proof {
            assert((LIMB_WIDTH as nat) * (LIMB_COUNT as nat) == BITS_LEN as nat);
            lemma_standard_limbs_fit();
            lemma_pow2_pos(64);
        }
        if self.n.equals(&BigNat::zero()) {
            return None;
        }
        if !fits_in_limbs(&self.n, LIMB_COUNT, LIMB_WIDTH) {
            return None;
        }
        if !fits_in_limbs(&self.k, LIMB_COUNT, LIMB_WIDTH) {
            return None;
        }
        let chip = BigIntChip::new(LIMB_WIDTH, BITS_LEN);
        let n_limbs = decompose_big(&self.n, LIMB_COUNT, LIMB_WIDTH);
        let n_assigned: AssignedInteger<Fresh> = AssignedInteger::from_values(n_limbs.as_slice());
        let k_limbs = decompose_big(&self.k, LIMB_COUNT, LIMB_WIDTH);
        let k_assigned: AssignedInteger<Fresh> = AssignedInteger::from_values(k_limbs.as_slice());
        proof {
            assert forall|i: int| 0 <= i < 32 implies #[trigger] n_assigned@[i] < pow2(64) by {
            }
            assert forall|i: int| 0 <= i < 32 implies #[trigger] k_assigned@[i] < pow2(64) by {
            }
            assert forall|j: int| 0 <= j < LIMB_COUNT implies (#[trigger] k_limbs@[j])@ < pow2(
                64,
            ) by {
                assert(k_limbs@[j]@ == fe_views(k_limbs@)[j]);
            }
        }
        proof {
            lemma_square_refreshes(self.k@);
        }
        let powed = match chip.square_mod(&k_assigned, &n_assigned) {
            None => {
                return None;
            },
            Some(powed) => powed,
        };
        let hashed = hash_limbs(&k_limbs);
        let mut instance: Vec<Fe> = Vec::new();
        let mut i: usize = 0;
        while i < LIMB_COUNT
            invariant
                i <= LIMB_COUNT,
                powed@.len() == LIMB_COUNT,
                instance.len() == i,
                forall|j: int| 0 <= j < i ==> (#[trigger] instance@[j])@ == powed@[j],
            decreases LIMB_COUNT - i,
        {
            instance.push(powed.limb(i));
            i = i + 1;
        }
        instance.push(hashed[1]);
        instance.push(hashed[2]);
        proof {
            assert(hashed@[1]@ == fe_views(hashed@)[1]);
            assert(hashed@[2]@ == fe_views(hashed@)[2]);
            assert(fe_views(instance@) =~= key_validation_instance(
                ((self.k@ * self.k@) % self.n@) as nat,
                hash_words(self.k@).0,
                hash_words(self.k@).1,
            ));
        }
        Some(instance)
    }
}

} // verus!
