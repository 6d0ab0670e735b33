//! The hash of a big integer: the integer is cut into limbs, the limbs are
//! packed three to a field element, and the elements are fed to the sponge.

pub mod types;

use crate::big_integer::carry::digits;
use crate::big_integer::decompose_big;
use crate::bigint::BigNat;
use crate::encryptor::chip::{FULL_ROUND, PARTIAL_ROUND};
use crate::encryptor::encryption::cipher::cipher_spec;
use crate::encryptor::encryptor::{initial_hash_state, squeezed, Encryptor};
use crate::encryptor::grain::fe_views;
use crate::encryptor::hash::types::HashValue;
use crate::field::{modulus, Fe};
use vstd::arithmetic::div_mod::lemma_small_mod;
use vstd::arithmetic::power2::{lemma_pow2_adds, lemma_pow2_pos, pow2};
use vstd::prelude::*;

verus! {

/// The number of bits of the integers that are hashed.
pub const BITS_LEN: usize = 2048;

/// The number of bits of a limb.
pub const LIMB_WIDTH: usize = 64;

/// The number of limbs of an integer.
pub const LIMB_COUNT: usize = 32;

/// The number of field elements that the limbs of an integer are packed
/// into.
pub const PACKED_COUNT: usize = 11;

/// Limb `j` of a limb sequence, and zero past the last limb.
pub open spec fn limb_at(limbs: Seq<nat>, j: int) -> nat {
    if 0 <= j < limbs.len() {
        limbs[j]
    } else {
        0
    }
}

/// Packed element `i` of a limb sequence: limbs `3i`, `3i + 1` and `3i + 2`,
/// weighted by the powers of two to the limb width.
pub open spec fn packed_limb(limbs: Seq<nat>, i: int) -> nat {
    limb_at(limbs, 3 * i) + pow2(64) * limb_at(limbs, 3 * i + 1) + pow2(128) * limb_at(
        limbs,
        3 * i + 2,
    )
}

/// The packed elements of [`LIMB_COUNT`] limbs, lowest first.
pub open spec fn packed_limbs(limbs: Seq<nat>) -> Seq<nat> {
    Seq::new(PACKED_COUNT as nat, |i: int| packed_limb(limbs, i))
}

/// The limbs of `value`: [`LIMB_COUNT`] limbs of [`LIMB_WIDTH`] bits.
pub open spec fn value_limbs(value: nat) -> Seq<nat> {
    digits(value, LIMB_COUNT as nat, LIMB_WIDTH as nat)
}

/// The state that the hashing sponge exposes for the given limbs.
pub open spec fn limbs_hash_state(limbs: Seq<nat>) -> Seq<nat> {
    squeezed(cipher_spec(), initial_hash_state(), packed_limbs(limbs))
}

/// The state that the hashing sponge exposes for `value`.
pub open spec fn hash_state(value: nat) -> Seq<nat> {
    limbs_hash_state(value_limbs(value))
}

/// The digest of `value`: the first two rate words of the exposed state.
pub open spec fn hash_words(value: nat) -> (nat, nat) {
    (hash_state(value)[1], hash_state(value)[2])
}

/// The powers of two that the packing uses.
pub proof fn lemma_packing_powers()
    ensures
        pow2(64) == 0x1_0000_0000_0000_0000,
        pow2(128) == 0x1_0000_0000_0000_0000_0000_0000_0000_0000,
        pow2(192) == 0x1_0000_0000_0000_0000_0000_0000_0000_0000_0000_0000_0000_0000nat,
        pow2(192) < modulus(),
{
    crate::big_integer::limb_math::lemma_pow2_values();
}

/// The packed elements of `limbs`, three limbs to an element.
pub fn pack_limbs(limbs: &Vec<Fe>) -> (elements: Vec<Fe>)
    requires
        limbs.len() == LIMB_COUNT,
        forall|j: int| 0 <= j < LIMB_COUNT ==> (#[trigger] limbs@[j])@ < pow2(64),
    ensures
        elements.len() == PACKED_COUNT,
        fe_views(elements@) == packed_limbs(fe_views(limbs@)),
{
    let half = Fe::from_u64(0x1_0000_0000);
    let base1 = half.mul(&half);
    let base2 = base1.mul(&base1);
    proof {
        lemma_packing_powers();
        assert(0x1_0000_0000nat * 0x1_0000_0000nat == pow2(64));
        lemma_small_mod(pow2(64), modulus());
        assert(pow2(64) * pow2(64) == pow2(128)) by {
            lemma_pow2_adds(64, 64);
        }
        lemma_small_mod(pow2(128), modulus());
    }
    let mut elements: Vec<Fe> = Vec::new();
    let mut i: usize = 0;
    while i < LIMB_COUNT / 3
        invariant
            i <= LIMB_COUNT / 3,
            limbs.len() == LIMB_COUNT,
            base1@ == pow2(64),
            base2@ == pow2(128),
            pow2(64) == 0x1_0000_0000_0000_0000,
            pow2(128) == 0x1_0000_0000_0000_0000_0000_0000_0000_0000,
            forall|j: int| 0 <= j < LIMB_COUNT ==> (#[trigger] limbs@[j])@ < pow2(64),
            elements.len() == i,
            forall|k: int|
                0 <= k < i ==> (#[trigger] elements@[k])@ == limbs@[3 * k]@ + pow2(64) * limbs@[3
                    * k + 1]@ + pow2(128) * limbs@[3 * k + 2]@,
        decreases LIMB_COUNT / 3 - i,
    {
        let l0 = limbs[3 * i];
        let l1 = limbs[3 * i + 1];
        let l2 = limbs[3 * i + 2];
        let t1 = base1.mul(&l1);
        let t2 = base2.mul(&l2);
        let sum = l0.add(&t1).add(&t2);
        proof {
            assert(limbs@[3 * i]@ < pow2(64));
            assert(limbs@[3 * i + 1]@ < pow2(64));
            assert(limbs@[3 * i + 2]@ < pow2(64));
            lemma_small_mod(pow2(64) * l1@, modulus());
            lemma_small_mod(pow2(128) * l2@, modulus());
            lemma_small_mod(l0@ + pow2(64) * l1@, modulus());
            lemma_small_mod(l0@ + pow2(64) * l1@ + pow2(128) * l2@, modulus());
        }
        elements.push(sum);
        i = i + 1;
    }
    let l0 = limbs[30];
    let l1 = limbs[31];
    let t1 = base1.mul(&l1);
    let last = l0.add(&t1);
    proof {
        assert(limbs@[30]@ < pow2(64));
        assert(limbs@[31]@ < pow2(64));
        lemma_small_mod(pow2(64) * l1@, modulus());
        lemma_small_mod(l0@ + pow2(64) * l1@, modulus());
    }
    elements.push(last);
    proof {
        let views = fe_views(limbs@);
        assert(pow2(128) * 0 == 0);
        assert forall|i: int| 0 <= i < PACKED_COUNT implies fe_views(elements@)[i]
            == packed_limb(views, i) by {
            assert(views[3 * i] == limbs@[3 * i]@);
            assert(views[3 * i + 1] == limbs@[3 * i + 1]@);
            if i < 10 {
                assert(views[3 * i + 2] == limbs@[3 * i + 2]@);
            }
        }
        assert(fe_views(elements@) =~= packed_limbs(views));
    }
    elements
}

/// The state that the hashing sponge exposes for [`LIMB_COUNT`] limbs of
/// [`LIMB_WIDTH`] bits.
pub fn hash_limbs(limbs: &Vec<Fe>) -> (hashed: [Fe; 5])
    requires
        limbs.len() == LIMB_COUNT,
        forall|j: int| 0 <= j < LIMB_COUNT ==> (#[trigger] limbs@[j])@ < pow2(64),
    ensures
        fe_views(hashed@) == limbs_hash_state(fe_views(limbs@)),
{
    let mut hasher = Encryptor::new_hash(FULL_ROUND, PARTIAL_ROUND);
    let elements = pack_limbs(limbs);
    let mut i: usize = 0;
    while i < PACKED_COUNT
        invariant
            i <= PACKED_COUNT,
            elements.len() == PACKED_COUNT,
            hasher.wf(),
            hasher@.spec == cipher_spec(),
            hasher@.state == initial_hash_state(),
            hasher@.queue == fe_views(elements@).take(i as int),
        decreases PACKED_COUNT - i,
    {
        let one: [Fe; 1] = [elements[i]];
        hasher.update(one.as_slice());
        proof {
            assert(fe_views(one@) =~= seq![elements@[i as int]@]);
            assert(fe_views(elements@).take(i as int) + fe_views(one@) =~= fe_views(
                elements@,
            ).take(i + 1));
        }
        i = i + 1;
    }
    proof {
        assert(fe_views(elements@).take(PACKED_COUNT as int) =~= fe_views(elements@));
    }
    hasher.squeeze(1)
}

/// The digest of a big integer of at most [`BITS_LEN`] bits.
pub fn hash(value: &BigNat) -> (digest: HashValue)
    requires
        value@ < pow2(BITS_LEN as nat),
    ensures
        digest.value(0) == hash_words(value@).0,
        digest.value(1) == hash_words(value@).1,
        digest.is_key(),
{
    let limbs = decompose_big(value, LIMB_COUNT, LIMB_WIDTH);
    proof {
        lemma_pow2_pos(64);
        assert forall|j: int| 0 <= j < LIMB_COUNT implies (#[trigger] limbs@[j])@ < pow2(64) by {
            assert(limbs@[j]@ == fe_views(limbs@)[j]);
        }
    }
    let hashed = hash_limbs(&limbs);
    proof {
        assert(hashed@[1]@ == fe_views(hashed@)[1]);
        assert(hashed@[2]@ == fe_views(hashed@)[2]);
    }
    HashValue::from_elements(&hashed[1], &hashed[2])
}

} // verus!
