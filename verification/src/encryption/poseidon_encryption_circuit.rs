//! The encryption circuit on witness values: the digest of the puzzle's
//! solution keys the cipher, and the circuit exposes the digest and the
//! cipher text of its message.

use crate::big_integer::decompose_big;
use crate::bigint::BigNat;
use crate::encryption::poseidon_encryption_zkp::encryption_instance;
use crate::encryptor::encryption::chip::{lemma_chip_matches_cipher, EncChip};
use crate::encryptor::encryption::cipher::{
    cipher_spec, cipher_start, encrypted, CIPHER_SIZE, MESSAGE_CAPACITY,
};
use crate::encryptor::encryptor::{drained, initial_cipher_state, initial_hash_state};
use crate::poseidon::hash::chip::PoseidonHashChip;
use crate::encryptor::grain::fe_views;
use crate::encryptor::hash::{hash_limbs, limbs_hash_state, LIMB_COUNT, LIMB_WIDTH};
use crate::field::Fe;
use vstd::arithmetic::power2::{lemma_pow2_pos, pow2};
use vstd::prelude::*;

verus! {

/// The circuit's witness: the message and the limbs of the puzzle's
/// solution.
#[derive(Debug, Clone)]
pub struct PoseidonEncryptionCircuit {
    pub data: [Fe; 11],
    pub k_limbs: Vec<Fe>,
}

/// The chips of the circuit.
pub struct PoseidonEncryptionChip {
}

impl PoseidonEncryptionChip {
    /// The hashing chip, in its initial state.
    pub fn new_hash() -> (chip: PoseidonHashChip)
        ensures
            chip.poseidon_chip.wf(),
            chip.poseidon_chip@.spec == cipher_spec(),
            chip.poseidon_chip@.state == initial_hash_state(),
            chip.poseidon_chip@.queue == Seq::<nat>::empty(),
    {
        PoseidonHashChip::new()
    }

    /// The encryption chip for the key `sk`.
    pub fn new_enc(sk: [Fe; 2]) -> (chip: EncChip)
        ensures
            chip.chip.wf(),
            chip.chip@.spec == cipher_spec(),
            chip.chip@.state == initial_cipher_state(sk@[0]@, sk@[1]@),
            chip.chip@.queue == Seq::<nat>::empty(),
            chip.pose_key0 == sk@[0],
            chip.pose_key1 == sk@[1],
    {
        EncChip::new(sk)
    }
}

impl PoseidonEncryptionCircuit {
    /// The circuit without a witness: the message and the solution are zero.
    pub fn create_empty_circuit() -> (circuit: Self)
        ensures
            circuit.k_limbs.len() == LIMB_COUNT,
            forall|j: int| 0 <= j < LIMB_COUNT ==> (#[trigger] circuit.k_limbs@[j])@ == 0,
    {
        let k = BigNat::zero();
        proof {
            lemma_pow2_pos((LIMB_WIDTH as nat) * (LIMB_COUNT as nat));
        }
        let k_limbs = decompose_big(&k, LIMB_COUNT, LIMB_WIDTH);
        proof {
            assert forall|j: int| 0 <= j < LIMB_COUNT implies (#[trigger] k_limbs@[j])@ == 0 by {
                assert(k_limbs@[j]@ == fe_views(k_limbs@)[j]);
                lemma_pow2_pos((LIMB_WIDTH as nat) * (j as nat));
                lemma_pow2_pos(LIMB_WIDTH as nat);
                vstd::arithmetic::div_mod::lemma_div_of0(
                    pow2((LIMB_WIDTH as nat) * (j as nat)) as int,
                );
                vstd::arithmetic::div_mod::lemma_small_mod(0, pow2(LIMB_WIDTH as nat));
            }
        }
        PoseidonEncryptionCircuit { data: [Fe::zero(); 11], k_limbs }
    }

    /// The instance that the circuit exposes for its witness: the cipher text
    /// of the message under the key that the two words of the digest of the
    /// solution are, then these two words.
    pub fn instance(&self) -> (instance: Vec<Fe>)
        requires
            self.k_limbs.len() == LIMB_COUNT,
            forall|j: int| 0 <= j < LIMB_COUNT ==> (#[trigger] self.k_limbs@[j])@ < pow2(64),
        ensures
            fe_views(instance@) == encryption_instance(
                limbs_hash_state(fe_views(self.k_limbs@))[1],
                limbs_hash_state(fe_views(self.k_limbs@))[2],
                encrypted(
                    cipher_spec(),
                    seq![
                        limbs_hash_state(fe_views(self.k_limbs@))[1],
                        limbs_hash_state(fe_views(self.k_limbs@))[2],
                    ],
                    fe_views(self.data@),
                ),
            ),
    {
        let ghost v = cipher_spec();
        let ghost data = fe_views(self.data@);
        let hashed = hash_limbs(&self.k_limbs);
        let pose_key: [Fe; 2] = [hashed[1], hashed[2]];
        let ghost key = fe_views(pose_key@);
        proof {
            assert(hashed@[1]@ == fe_views(hashed@)[1]);
            assert(hashed@[2]@ == fe_views(hashed@)[2]);
            assert(key =~= seq![
                limbs_hash_state(fe_views(self.k_limbs@))[1],
                limbs_hash_state(fe_views(self.k_limbs@))[2],
            ]);
        }
        let mut enc = EncChip::new(pose_key);
        let _ = enc.chip.squeeze(0);
        proof {
            let init = initial_cipher_state(key[0], key[1]);
            assert(drained(v, init, Seq::<nat>::empty()) == init);
        }
        let mut i: usize = 0;
        while i < MESSAGE_CAPACITY
            invariant
                i <= MESSAGE_CAPACITY,
                data == fe_views(self.data@),
                enc.chip.wf(),
                enc.chip@.spec == v,
                enc.chip@.state == cipher_start(v, key),
                enc.chip@.queue == data.take(i as int),
            decreases MESSAGE_CAPACITY - i,
        {
            let one: [Fe; 1] = [self.data[i]];
            enc.chip.update(one.as_slice());
            proof {
                assert(fe_views(one@) =~= seq![self.data@[i as int]@]);
                assert(data.take(i as int) + fe_views(one@) =~= data.take(i + 1));
            }
            i = i + 1;
        }
        proof {
            assert(data.take(MESSAGE_CAPACITY as int) =~= data);
            lemma_chip_matches_cipher(v, key, data);
        }
        let cipher_text = enc.absorb_and_relese();
        proof {
            assert(cipher_text@.len() == fe_views(cipher_text@).len());
            assert(encrypted(v, key, data).len() == CIPHER_SIZE);
        }
        let mut instance: Vec<Fe> = Vec::new();
        let mut j: usize = 0;
        while j < CIPHER_SIZE
            invariant
                j <= CIPHER_SIZE,
                cipher_text.len() == CIPHER_SIZE,
                instance.len() == j,
                forall|k: int| 0 <= k < j ==> (#[trigger] instance@[k]) == cipher_text@[k],
            decreases CIPHER_SIZE - j,
        {
            instance.push(cipher_text[j]);
            j = j + 1;
        }
        instance.push(hashed[1]);
        instance.push(hashed[2]);
        proof {
            let want = encryption_instance(key[0], key[1], encrypted(v, key, data));
            assert forall|k: int| 0 <= k < want.len() implies fe_views(instance@)[k]
                == want[k] by {
                if k < CIPHER_SIZE {
                    assert(instance@[k] == cipher_text@[k]);
                    assert(fe_views(cipher_text@)[k] == cipher_text@[k]@);
                }
            }
            assert(fe_views(instance@) =~= want);
        }
        instance
    }
}

} // verus!
