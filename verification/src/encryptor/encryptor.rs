//! The sponge: a state of [`T`] words, of which the first is the capacity
//! and the other [`RATE`] take input, and a queue of input that waits to be
//! absorbed.
//!
//! A sponge is made for hashing or for encryption; the two differ in the
//! constant of the capacity word and in the key that encryption seeds two of
//! the rate words with. `update` only queues input. The permutation runs when
//! the queue is drained, chunk by chunk: by `squeeze`, which exposes the
//! state, or by `absorb_and_release`, which also hands out the rate words as
//! they stand between the addition of a chunk and the permutation.

use crate::encryptor::grain::fe_views;
use crate::encryptor::permutation::permuted;
use crate::encryptor::spec::{poseidon_spec, Spec, SpecView, RATE, T};
use crate::field::{fe_add, modulus, Fe};
use vstd::arithmetic::div_mod::lemma_small_mod;
use vstd::prelude::*;

verus! {

/// Where a sponge stands: it takes input, or its state has been exposed
/// since the last input. A sponge that has not been initialised does not
/// exist as a value.
#[derive(Clone, Copy, Debug, PartialEq, Eq, Structural)]
pub enum Phase {
    Absorbing,
    Squeezed,
}

/// The constant of the capacity word of a hashing sponge: two to the 64.
pub open spec fn hash_domain() -> nat {
    0x1_0000_0000_0000_0000
}

/// The constant of the capacity word of an encrypting sponge: two to the 32.
pub open spec fn cipher_domain() -> nat {
    0x1_0000_0000
}

/// The state that a hashing sponge starts from.
pub open spec fn initial_hash_state() -> Seq<nat> {
    seq![hash_domain(), 0, 0, 0, 0]
}

/// The state that an encrypting sponge starts from: the key seeds the second
/// and the third rate word.
pub open spec fn initial_cipher_state(key0: nat, key1: nat) -> Seq<nat> {
    seq![cipher_domain(), 0, key0, key1, 0]
}

/// The state with a chunk of at most [`RATE`] words added into the rate
/// words, the capacity word untouched.
pub open spec fn with_chunk(state: Seq<nat>, chunk: Seq<nat>) -> Seq<nat> {
    Seq::new(
        T as nat,
        |i: int|
            if 1 <= i <= chunk.len() {
                fe_add(state[i], chunk[i - 1])
            } else {
                state[i]
            },
    )
}

/// The state after a chunk has been added and the permutation applied.
pub open spec fn absorbed(v: SpecView, state: Seq<nat>, chunk: Seq<nat>) -> Seq<nat> {
    permuted(v, with_chunk(state, chunk))
}

/// The length of the next chunk of a queue: [`RATE`], or what is left.
pub open spec fn chunk_len(queue: Seq<nat>) -> int {
    if queue.len() < RATE {
        queue.len() as int
    } else {
        RATE as int
    }
}

/// The state after the whole queue has been absorbed, chunk by chunk.
pub open spec fn drained(v: SpecView, state: Seq<nat>, queue: Seq<nat>) -> Seq<nat>
    decreases queue.len(),
{
    if queue.len() == 0 {
        state
    } else {
        let n = chunk_len(queue);
        drained(v, absorbed(v, state, queue.take(n)), queue.skip(n))
    }
}

/// The state that a squeeze exposes: the queue is drained, and where its
/// last chunk was full, or there was none, the permutation is applied once
/// more.
pub open spec fn squeezed(v: SpecView, state: Seq<nat>, queue: Seq<nat>) -> Seq<nat> {
    let after = drained(v, state, queue);
    if queue.len() % (RATE as nat) == 0 {
        permuted(v, after)
    } else {
        after
    }
}

/// The words that draining releases: for each chunk, the rate words that
/// took it, as they stand after the addition and before the permutation.
pub open spec fn released(v: SpecView, state: Seq<nat>, queue: Seq<nat>) -> Seq<nat>
    decreases queue.len(),
{
    if queue.len() == 0 {
        Seq::empty()
    } else {
        let n = chunk_len(queue);
        let chunk = queue.take(n);
        with_chunk(state, chunk).subrange(1, 1 + n) + released(
            v,
            absorbed(v, state, chunk),
            queue.skip(n),
        )
    }
}

/// Draining releases one word for each word of the queue.
pub proof fn lemma_released_len(v: SpecView, state: Seq<nat>, queue: Seq<nat>)
    ensures
        released(v, state, queue).len() == queue.len(),
    decreases queue.len(),
{
    if queue.len() > 0 {
        let n = chunk_len(queue);
        lemma_released_len(v, absorbed(v, state, queue.take(n)), queue.skip(n));
    }
}

/// What a sponge holds, as numbers.
pub struct SpongeView {
    pub spec: SpecView,
    pub state: Seq<nat>,
    pub queue: Seq<nat>,
    pub phase: Phase,
}

/// The sponge.
pub struct Encryptor {
    pub(crate) spec: Spec,
    pub(crate) state: [Fe; 5],
    pub(crate) absorbing: Vec<Fe>,
    pub(crate) phase: Phase,
}

impl View for Encryptor {
    type V = SpongeView;

    closed spec fn view(&self) -> SpongeView {
        SpongeView {
            spec: self.spec@,
            state: fe_views(self.state@),
            queue: fe_views(self.absorbing@),
            phase: self.phase,
        }
    }
}

impl Encryptor {
    /// Whether the sponge's parameters are well formed.
    pub closed spec fn wf(&self) -> bool {
        self.spec.wf()
    }

    /// A sponge for hashing, with the given numbers of rounds.
    pub fn new_hash(r_f: usize, r_p: usize) -> (sponge: Self)
        requires
            (r_f + r_p) * T <= usize::MAX,
        ensures
            sponge.wf(),
            sponge@.spec == poseidon_spec(r_f as nat, r_p as nat),
            sponge@.state == initial_hash_state(),
            sponge@.queue == Seq::<nat>::empty(),
            sponge@.phase == Phase::Absorbing,
    {
        let half = Fe::from_u64(0x1_0000_0000);
        let domain = half.mul(&half);
        proof {
            assert(0x1_0000_0000nat * 0x1_0000_0000nat == hash_domain());
            lemma_small_mod(hash_domain(), modulus());
        }
        let zero = Fe::zero();
        let state: [Fe; 5] = [domain, zero, zero, zero, zero];
        let sponge = Encryptor {
            spec: Spec::new(r_f, r_p),
            state,
            absorbing: Vec::new(),
            phase: Phase::Absorbing,
        };
        proof {
            assert(sponge@.state =~= initial_hash_state());
            assert(sponge@.queue =~= Seq::<nat>::empty());
        }
        sponge
    }

    /// A sponge for encryption under the key `(key0, key1)`, with the given
    /// numbers of rounds.
    pub fn new_enc(r_f: usize, r_p: usize, key0: Fe, key1: Fe) -> (sponge: Self)
        requires
            (r_f + r_p) * T <= usize::MAX,
        ensures
            sponge.wf(),
            sponge@.spec == poseidon_spec(r_f as nat, r_p as nat),
            sponge@.state == initial_cipher_state(key0@, key1@),
            sponge@.queue == Seq::<nat>::empty(),
            sponge@.phase == Phase::Absorbing,
    {
        let domain = Fe::from_u64(0x1_0000_0000);
        let zero = Fe::zero();
        let state: [Fe; 5] = [domain, zero, key0, key1, zero];
        let sponge = Encryptor {
            spec: Spec::new(r_f, r_p),
            state,
            absorbing: Vec::new(),
            phase: Phase::Absorbing,
        };
        proof {
            assert(sponge@.state =~= initial_cipher_state(key0@, key1@));
            assert(sponge@.queue =~= Seq::<nat>::empty());
        }
        sponge
    }

    /// Queues field elements for absorption. No permutation runs.
    pub fn update(&mut self, elements: &[Fe])
        requires
            old(self).wf(),
        ensures
            final(self).wf(),
            final(self)@.spec == old(self)@.spec,
            final(self)@.state == old(self)@.state,
            final(self)@.queue == old(self)@.queue + fe_views(elements@),
            final(self)@.phase == Phase::Absorbing,
    {
        let ghost before = fe_views(self.absorbing@);
        let mut i: usize = 0;
        while i < elements.len()
            invariant
                i <= elements.len(),
                self.spec == old(self).spec,
                self.state == old(self).state,
                before == fe_views(old(self).absorbing@),
                fe_views(self.absorbing@) == before + fe_views(elements@).take(i as int),
            decreases elements.len() - i,
        {
            let ghost queue = fe_views(self.absorbing@);
            self.absorbing.push(elements[i]);
            proof {
                assert(fe_views(self.absorbing@) =~= queue.push(elements@[i as int]@));
                assert(fe_views(elements@).take(i + 1) =~= fe_views(elements@).take(
                    i as int,
                ).push(elements@[i as int]@));
                assert(before + fe_views(elements@).take(i + 1) =~= queue.push(
                    elements@[i as int]@,
                ));
            }
            i = i + 1;
        }
        self.phase = Phase::Absorbing;
        proof {
            assert(fe_views(elements@).take(elements.len() as int) =~= fe_views(elements@));
        }
    }

    /// Absorbs the queue from place `from` on, chunk by chunk, and collects
    /// the words released on the way.
    fn drain(&mut self) -> (words: Vec<Fe>)
        requires
            old(self).wf(),
        ensures
            final(self).wf(),
            final(self).phase == old(self).phase,
            final(self)@.spec == old(self)@.spec,
            final(self)@.state == drained(old(self)@.spec, old(self)@.state, old(self)@.queue),
            final(self)@.queue == Seq::<nat>::empty(),
            fe_views(words@) == released(old(self)@.spec, old(self)@.state, old(self)@.queue),
    {
        let ghost v = self.spec@;
        let ghost s0 = fe_views(self.state@);
        let ghost queue = fe_views(self.absorbing@);
        let len = self.absorbing.len();
        let mut words: Vec<Fe> = Vec::new();
        let mut pos: usize = 0;
        proof {
            assert(queue.skip(0) =~= queue);
            assert(fe_views(words@) =~= Seq::<nat>::empty());
        }
        while pos < len
            invariant
                pos <= len,
                len == self.absorbing.len(),
                self.spec == old(self).spec,
                self.phase == old(self).phase,
                self.absorbing == old(self).absorbing,
                self.spec.wf(),
                v == self.spec@,
                queue == fe_views(self.absorbing@),
                drained(v, fe_views(self.state@), queue.skip(pos as int)) == drained(v, s0, queue),
                fe_views(words@) + released(v, fe_views(self.state@), queue.skip(pos as int))
                    == released(v, s0, queue),
            decreases len - pos,
        {
            let n: usize = if len - pos < RATE {
                len - pos
            } else {
                RATE
            };
            let ghost before = fe_views(self.state@);
            let ghost rest = queue.skip(pos as int);
            let ghost chunk = rest.take(n as int);
            let ghost out = fe_views(words@);
            let mut j: usize = 0;
            while j < n
                invariant
                    j <= n <= RATE,
                    pos + n <= len,
                    len == self.absorbing.len(),
                    queue == fe_views(self.absorbing@),
                    rest == queue.skip(pos as int),
                    chunk == rest.take(n as int),
                    words.len() == out.len() + j,
                    before.len() == T,
                    forall|k: int| 0 <= k < out.len() ==> (#[trigger] words@[k])@ == out[k],
                    forall|k: int|
                        0 <= k < j ==> (#[trigger] words@[out.len() + k])@ == with_chunk(
                            before,
                            chunk,
                        )[k + 1],
                    forall|k: int|
                        0 <= k < T ==> (#[trigger] self.state@[k])@ == if 1 <= k <= j {
                            with_chunk(before, chunk)[k]
                        } else {
                            before[k]
                        },
                    self.spec == old(self).spec,
                    self.phase == old(self).phase,
                    self.absorbing == old(self).absorbing,
                decreases n - j,
            {
                let word = self.state[j + 1].add(&self.absorbing[pos + j]);
                proof {
                    assert(chunk[j as int] == queue[pos + j]);
                }
                self.state[j + 1] = word;
                words.push(word);
                j = j + 1;
            }
            proof {
                let added = with_chunk(before, chunk);
                assert(fe_views(self.state@) =~= added);
                let want = out + added.subrange(1, 1 + n);
                assert forall|i: int| 0 <= i < words.len() implies fe_views(words@)[i]
                    == want[i] by {
                    if i >= out.len() {
                        let k = i - out.len();
                        assert(words@[out.len() + k]@ == added[k + 1]);
                    }
                }
                assert(fe_views(words@) =~= want);
                assert(chunk_len(rest) == n);
                assert(rest.skip(n as int) =~= queue.skip(pos + n));
            }
            self.spec.permute(&mut self.state);
            pos = pos + n;
        }
        self.absorbing = Vec::new();
        proof {
            assert(fe_views(self.absorbing@) =~= Seq::<nat>::empty());
            assert(queue.skip(len as int) =~= Seq::<nat>::empty());
            assert(fe_views(words@) =~= released(v, s0, queue));
        }
        words
    }

    /// Drains the queue and exposes the state. Where the last chunk of the
    /// queue was full, or the queue was empty, the permutation is applied
    /// once more before the state is exposed. The words are the same for
    /// every `selector`.
    pub fn squeeze(&mut self, selector: usize) -> (words: [Fe; 5])
        requires
            old(self).wf(),
        ensures
            final(self).wf(),
            final(self)@.spec == old(self)@.spec,
            final(self)@.state == squeezed(old(self)@.spec, old(self)@.state, old(self)@.queue),
            final(self)@.queue == Seq::<nat>::empty(),
            final(self)@.phase == Phase::Squeezed,
            fe_views(words@) == final(self)@.state,
    {
        let blank = self.absorbing.len() % RATE == 0;
        let _ = self.drain();
        if blank {
            self.spec.permute(&mut self.state);
        }
        self.phase = Phase::Squeezed;
        self.state
    }

    /// Drains the queue as encryption does: each chunk is added into the rate
    /// words, those words are released, and the permutation is applied. Gives
    /// the released words, one for each word of the queue.
    pub fn absorb_and_release(&mut self) -> (words: Vec<Fe>)
        requires
            old(self).wf(),
        ensures
            final(self).wf(),
            final(self)@.spec == old(self)@.spec,
            final(self)@.state == drained(old(self)@.spec, old(self)@.state, old(self)@.queue),
            final(self)@.queue == Seq::<nat>::empty(),
            final(self)@.phase == old(self)@.phase,
            words.len() == old(self)@.queue.len(),
            fe_views(words@) == released(old(self)@.spec, old(self)@.state, old(self)@.queue),
    {
        proof {
            lemma_released_len(self@.spec, self@.state, self@.queue);
        }
        self.drain()
    }

    /// The words of the state.
    pub fn words(&self) -> (words: [Fe; 5])
        ensures
            fe_views(words@) == self@.state,
    {
        self.state
    }

    /// Where the sponge stands.
    pub fn phase(&self) -> (phase: Phase)
        ensures
            phase == self@.phase,
    {
        self.phase
    }
}

} // verus!
