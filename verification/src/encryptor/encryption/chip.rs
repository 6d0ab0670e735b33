//! The encryption circuit on witness values: the chip that absorbs a message
//! into a keyed sponge and releases the cipher text, and the circuit that
//! holds a cipher text to it.

use crate::encryptor::chip::{FULL_ROUND, PARTIAL_ROUND};
use crate::encryptor::encryption::cipher::{
    cipher_spec, cipher_start, encrypted, CIPHER_SIZE, MESSAGE_CAPACITY,
};
use crate::encryptor::encryptor::{
    drained, initial_cipher_state, lemma_released_len, released, Encryptor,
};
use crate::encryptor::grain::fe_views;

use crate::encryptor::spec::SpecView;
use crate::field::Fe;
use vstd::prelude::*;

verus! {

/// The cipher text that a chip releases for its queue: the first
/// [`MESSAGE_CAPACITY`] released words, as far as there are any, and the
/// capacity word of the state that is left.
pub open spec fn released_cipher_text(v: SpecView, state: Seq<nat>, queue: Seq<nat>) -> Seq<nat> {
    let words = released(v, state, queue);
    let kept = if words.len() < MESSAGE_CAPACITY {
        words.len() as int
    } else {
        MESSAGE_CAPACITY as int
    };
    words.take(kept).push(drained(v, state, queue)[0])
}

/// The chip releases what the cipher computes: for a message of
/// [`MESSAGE_CAPACITY`] words, absorbed from the keyed state after its first
/// permutation, the released cipher text is the cipher text of the message.
pub proof fn lemma_chip_matches_cipher(v: SpecView, key: Seq<nat>, data: Seq<nat>)
    requires
        data.len() == MESSAGE_CAPACITY,
    ensures
        released_cipher_text(v, cipher_start(v, key), data) == encrypted(v, key, data),
{
    let start = cipher_start(v, key);
    lemma_released_len(v, start, data);
    assert(released_cipher_text(v, start, data) =~= encrypted(v, key, data));
}

/// The encryption chip: a sponge seeded with a key.
pub struct EncChip {
    pub chip: Encryptor,
    pub pose_key0: Fe,
    pub pose_key1: Fe,
}

impl EncChip {
    /// The chip for the key `sk`.
    pub fn new(sk: [Fe; 2]) -> (chip: Self)
        ensures
            chip.chip.wf(),
            chip.chip@.spec == cipher_spec(),
            chip.chip@.state == initial_cipher_state(sk@[0]@, sk@[1]@),
            chip.chip@.queue == Seq::<nat>::empty(),
            chip.pose_key0 == sk@[0],
            chip.pose_key1 == sk@[1],
    {
        EncChip {
            chip: Encryptor::new_enc(FULL_ROUND, PARTIAL_ROUND, sk[0], sk[1]),
            pose_key0: sk[0],
            pose_key1: sk[1],
        }
    }

    /// Absorbs the queued input chunk by chunk and releases the cipher text.
    pub fn absorb_and_relese(&mut self) -> (cipher_text: Vec<Fe>)
        requires
            old(self).chip.wf(),
        ensures
            final(self).chip.wf(),
            final(self).chip@.spec == old(self).chip@.spec,
            final(self).chip@.state == drained(
                old(self).chip@.spec,
                old(self).chip@.state,
                old(self).chip@.queue,
            ),
            final(self).chip@.queue == Seq::<nat>::empty(),
            final(self).pose_key0 == old(self).pose_key0,
            final(self).pose_key1 == old(self).pose_key1,
            fe_views(cipher_text@) == released_cipher_text(
                old(self).chip@.spec,
                old(self).chip@.state,
                old(self).chip@.queue,
            ),
    {
        let ghost v = self.chip@.spec;
        let ghost state = self.chip@.state;
        let ghost queue = self.chip@.queue;
        let words = self.chip.absorb_and_release();
        let kept: usize = if words.len() < MESSAGE_CAPACITY {
            words.len()
        } else {
            MESSAGE_CAPACITY
        };
        let mut cipher_text: Vec<Fe> = Vec::new();
        let mut i: usize = 0;
        while i < kept
            invariant
                i <= kept <= words.len(),
                cipher_text.len() == i,
                forall|k: int| 0 <= k < i ==> (#[trigger] cipher_text@[k]) == words@[k],
            decreases kept - i,
        {
            cipher_text.push(words[i]);
            i = i + 1;
        }
        let last = self.chip.words();
        cipher_text.push(last[0]);
        proof {
            assert(last@[0]@ == fe_views(last@)[0]);
            assert(fe_views(cipher_text@) =~= released_cipher_text(v, state, queue)) by {
                let want = released_cipher_text(v, state, queue);
                assert forall|k: int| 0 <= k < want.len() implies fe_views(cipher_text@)[k]
                    == want[k] by {
                    if k < kept {
                        assert(cipher_text@[k] == words@[k]);
                        assert(fe_views(words@)[k] == words@[k]@);
                    }
                }
            }
        }
        cipher_text
    }
}

/// The encryption circuit: a message, a key, and the cipher text that the
/// circuit holds the two to.
pub struct EncryptionCircuit {
    pub data: Vec<Fe>,
    pub key: [Fe; 2],
    pub expected: Vec<Fe>,
}

impl EncryptionCircuit {
    /// Whether the circuit's constraints hold of its witness: the chip is
    /// seeded with the key and permuted once, the message is queued, and each
    /// word that the chip releases equals the expected word at its place.
    pub fn is_satisfied(&self) -> (holds: bool)
        requires
            self.data.len() == MESSAGE_CAPACITY,
            self.expected.len() >= CIPHER_SIZE,
        ensures
            holds == (forall|i: int|
                0 <= i < CIPHER_SIZE ==> (#[trigger] self.expected@[i])@ == encrypted(
                    cipher_spec(),
                    fe_views(self.key@),
                    fe_views(self.data@),
                )[i]),
    {
        let ghost v = cipher_spec();
        let ghost key = fe_views(self.key@);
        let ghost data = fe_views(self.data@);
        let mut chip = EncChip::new(self.key);
        let _ = chip.chip.squeeze(0);
        proof {
            let init = initial_cipher_state(key[0], key[1]);
            assert(drained(v, init, Seq::<nat>::empty()) == init);
        }
        let mut i: usize = 0;
        while i < MESSAGE_CAPACITY
            invariant
                i <= MESSAGE_CAPACITY,
                self.data.len() == MESSAGE_CAPACITY,
                data == fe_views(self.data@),
                chip.chip.wf(),
                chip.chip@.spec == v,
                chip.chip@.state == cipher_start(v, key),
                chip.chip@.queue == data.take(i as int),
            decreases MESSAGE_CAPACITY - i,
        {
            let one: [Fe; 1] = [self.data[i]];
            chip.chip.update(one.as_slice());
            proof {
                assert(fe_views(one@) =~= seq![self.data@[i as int]@]);
                assert(data.take(i as int) + fe_views(one@) =~= data.take(i + 1));
            }
            i = i + 1;
        }
        proof {
            assert(data.take(MESSAGE_CAPACITY as int) =~= data);
            lemma_chip_matches_cipher(v, key, data);
        }
        let cipher_text = chip.absorb_and_relese();
        let ghost want = encrypted(v, key, data);
        let mut holds = true;
        let mut j: usize = 0;
        while j < CIPHER_SIZE
            invariant
                j <= CIPHER_SIZE,
                self.expected.len() >= CIPHER_SIZE,
                fe_views(cipher_text@) == want,
                want.len() == CIPHER_SIZE,
                holds == (forall|k: int|
                    0 <= k < j ==> (#[trigger] self.expected@[k])@ == want[k]),
            decreases CIPHER_SIZE - j,
        {
            proof {
                assert(cipher_text@[j as int]@ == fe_views(cipher_text@)[j as int]);
            }
            if !cipher_text[j].equals(&self.expected[j]) {
                holds = false;
            }
            j = j + 1;
        }
        holds
    }
}

} // verus!
