//! The permutation: rounds that add constants, raise to the fifth power and
//! mix by a matrix. The first and the last rounds raise every word; the
//! rounds between raise the first word only.

use crate::encryptor::grain::fe_views;
use crate::encryptor::spec::{spec_complete, Spec, SpecView, T};
use crate::field::{fe_add, fe_mul, Fe};
use vstd::prelude::*;

verus! {

/// The S-box: the fifth power.
pub open spec fn sbox(x: nat) -> nat {
    let x2 = fe_mul(x, x);
    let x4 = fe_mul(x2, x2);
    fe_mul(x4, x)
}

/// Whether round `r` raises every word: the first half and the last half of
/// the full rounds do.
pub open spec fn is_full_round(v: SpecView, r: nat) -> bool {
    r < v.r_f / 2 || r >= v.r_f / 2 + v.r_p
}

/// The state with the constants of round `r` added.
pub open spec fn after_constants(v: SpecView, state: Seq<nat>, r: nat) -> Seq<nat> {
    Seq::new(T as nat, |i: int| fe_add(state[i], v.constants[r * T + i]))
}

/// The state after the S-box layer of round `r`.
pub open spec fn after_sbox(v: SpecView, state: Seq<nat>, r: nat) -> Seq<nat> {
    Seq::new(
        T as nat,
        |i: int|
            if is_full_round(v, r) || i == 0 {
                sbox(state[i])
            } else {
                state[i]
            },
    )
}

/// The sum of the first `n` products of row `i` of the matrix with the state.
pub open spec fn row_sum(v: SpecView, state: Seq<nat>, i: int, n: nat) -> nat
    decreases n,
{
    if n == 0 {
        0
    } else {
        fe_add(row_sum(v, state, i, (n - 1) as nat), fe_mul(v.mds[i * T + n - 1], state[n - 1]))
    }
}

/// The state multiplied by the matrix.
pub open spec fn after_mds(v: SpecView, state: Seq<nat>) -> Seq<nat> {
    Seq::new(T as nat, |i: int| row_sum(v, state, i, T as nat))
}

/// The state after round `r`.
pub open spec fn round(v: SpecView, state: Seq<nat>, r: nat) -> Seq<nat> {
    after_mds(v, after_sbox(v, after_constants(v, state, r), r))
}

/// The state after the first `n` rounds.
pub open spec fn rounds(v: SpecView, state: Seq<nat>, n: nat) -> Seq<nat>
    decreases n,
{
    if n == 0 {
        state
    } else {
        round(v, rounds(v, state, (n - 1) as nat), (n - 1) as nat)
    }
}

/// The state after the whole permutation.
pub open spec fn permuted(v: SpecView, state: Seq<nat>) -> Seq<nat> {
    rounds(v, state, v.r_f + v.r_p)
}

/// The permutation keeps the number of words.
pub proof fn lemma_permuted_len(v: SpecView, state: Seq<nat>)
    requires
        state.len() == T,
    ensures
        permuted(v, state).len() == T,
{
    lemma_rounds_len(v, state, v.r_f + v.r_p);
}

/// Rounds keep the number of words.
pub proof fn lemma_rounds_len(v: SpecView, state: Seq<nat>, n: nat)
    requires
        state.len() == T,
    ensures
        rounds(v, state, n).len() == T,
    decreases n,
{
    if n > 0 {
        lemma_rounds_len(v, state, (n - 1) as nat);
    }
}

/// The fifth power of a field element.
pub fn pow5(x: &Fe) -> (r: Fe)
    ensures
        r@ == sbox(x@),
{
    let x2 = x.mul(x);
    let x4 = x2.mul(&x2);
    x4.mul(x)
}

impl Spec {
    /// One round of the permutation.
    fn apply_round(&self, state: &mut [Fe; 5], r: usize)
        requires
            self.wf(),
            r < self@.r_f + self@.r_p,
        ensures
            fe_views(final(state)@) == round(self@, fe_views(old(state)@), r as nat),
    {
        proof {
            self.lemma_wf();
        }
        let ghost v = self@;
        let ghost s0 = fe_views(state@);
        let half = self.full_rounds() / 2;
        let full = r < half || r - half >= self.partial_rounds();
        let mut i: usize = 0;
        while i < T
            invariant
                i <= T,
                self.wf(),
                v == self@,
                spec_complete(v),
                r < v.r_f + v.r_p,
                full == is_full_round(v, r as nat),
                forall|k: int|
                    0 <= k < i ==> (#[trigger] state@[k])@ == after_sbox(
                        v,
                        after_constants(v, s0, r as nat),
                        r as nat,
                    )[k],
                forall|k: int| i <= k < T ==> (#[trigger] state@[k])@ == s0[k],
            decreases T - i,
        {
            let added = state[i].add(self.constant(r, i));
            if full || i == 0 {
                state[i] = pow5(&added);
            } else {
                state[i] = added;
            }
            i = i + 1;
        }
        let ghost s1 = fe_views(state@);
        proof {
            assert(s1 =~= after_sbox(v, after_constants(v, s0, r as nat), r as nat));
        }
        let mut mixed: [Fe; 5] = [Fe::zero(); 5];
        let mut i: usize = 0;
        while i < T
            invariant
                i <= T,
                self.wf(),
                v == self@,
                spec_complete(v),
                s1 == fe_views(state@),
                forall|k: int| 0 <= k < i ==> (#[trigger] mixed@[k])@ == row_sum(v, s1, k, T as nat),
            decreases T - i,
        {
            let mut acc = Fe::zero();
            let mut j: usize = 0;
            while j < T
                invariant
                    i < T,
                    j <= T,
                    self.wf(),
                    v == self@,
                    spec_complete(v),
                    s1 == fe_views(state@),
                    acc@ == row_sum(v, s1, i as int, j as nat),
                decreases T - j,
            {
                let term = self.mds_entry(i, j).mul(&state[j]);
                acc = acc.add(&term);
                j = j + 1;
            }
            mixed[i] = acc;
            i = i + 1;
        }
        *state = mixed;
        proof {
            assert(fe_views(state@) =~= after_mds(v, s1));
        }
    }

    /// Applies the permutation to the state.
    pub fn permute(&self, state: &mut [Fe; 5])
        requires
            self.wf(),
        ensures
            fe_views(final(state)@) == permuted(self@, fe_views(old(state)@)),
    {
        let ghost v = self@;
        let ghost s0 = fe_views(state@);
        let total = self.round_count();
        let mut r: usize = 0;
        while r < total
            invariant
                r <= total,
                self.wf(),
                v == self@,
                total == v.r_f + v.r_p,
                fe_views(state@) == rounds(v, s0, r as nat),
            decreases total - r,
        {
            self.apply_round(state, r);
            r = r + 1;
        }
    }
}

} // verus!
