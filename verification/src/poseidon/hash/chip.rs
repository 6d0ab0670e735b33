//! The hashing chip on witness values.

use crate::encryptor::chip::{FULL_ROUND, PARTIAL_ROUND};
use crate::encryptor::encryption::cipher::cipher_spec;
use crate::encryptor::encryptor::{initial_hash_state, squeezed, Encryptor};
use crate::encryptor::grain::fe_views;
use crate::field::Fe;
use vstd::prelude::*;

verus! {

/// The hashing chip: a sponge and its queue.
pub struct PoseidonHashChip {
    pub poseidon_chip: Encryptor,
}

impl PoseidonHashChip {
    /// A chip whose sponge is in its initial state.
    pub fn new() -> (chip: Self)
        ensures
            chip.poseidon_chip.wf(),
            chip.poseidon_chip@.spec == cipher_spec(),
            chip.poseidon_chip@.state == initial_hash_state(),
            chip.poseidon_chip@.queue == Seq::<nat>::empty(),
    {
        PoseidonHashChip { poseidon_chip: Encryptor::new_hash(FULL_ROUND, PARTIAL_ROUND) }
    }

    /// Queues field elements. No permutation runs.
    pub fn update(&mut self, elements: &[Fe])
        requires
            old(self).poseidon_chip.wf(),
        ensures
            final(self).poseidon_chip.wf(),
            final(self).poseidon_chip@.spec == old(self).poseidon_chip@.spec,
            final(self).poseidon_chip@.state == old(self).poseidon_chip@.state,
            final(self).poseidon_chip@.queue == old(self).poseidon_chip@.queue + fe_views(
                elements@,
            ),
    {
        self.poseidon_chip.update(elements);
    }

    /// Absorbs the queue chunk by chunk, applies the permutation once more if
    /// the last chunk was full, and gives the state.
    pub fn hash(&mut self) -> (state: [Fe; 5])
        requires
            old(self).poseidon_chip.wf(),
        ensures
            final(self).poseidon_chip.wf(),
            final(self).poseidon_chip@.spec == old(self).poseidon_chip@.spec,
            final(self).poseidon_chip@.queue == Seq::<nat>::empty(),
            final(self).poseidon_chip@.state == fe_views(state@),
            fe_views(state@) == squeezed(
                old(self).poseidon_chip@.spec,
                old(self).poseidon_chip@.state,
                old(self).poseidon_chip@.queue,
            ),
    {
        self.poseidon_chip.squeeze(1)
    }
}

} // verus!
