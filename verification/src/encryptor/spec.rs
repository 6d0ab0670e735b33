//! The parameters of the permutation: its round constants and its mixing
//! matrix, both drawn from the bit generator.

use crate::encryptor::grain::{fe_views, sampled_many, start, Grain, RETRY_LIMIT};
use crate::field::{fe_add, inverse_or_zero, Fe};
use vstd::prelude::*;

verus! {

/// The number of words of the permutation's state.
pub const T: usize = 5;

/// The number of words that take input: all but the first.
pub const RATE: usize = 4;

/// The parameters of a permutation, as numbers.
pub struct SpecView {
    /// The number of rounds that put every word through the S-box.
    pub r_f: nat,
    /// The number of rounds that put only the first word through the S-box.
    pub r_p: nat,
    /// The round constants, round by round, [`T`] to a round.
    pub constants: Seq<nat>,
    /// The mixing matrix, row by row.
    pub mds: Seq<nat>,
}

/// The parameters for the given numbers of rounds: the round constants are
/// drawn by rejection; the mixing matrix is the Cauchy matrix of two draws of
/// [`T`] elements each, `1 / (x_i + y_j)`.
pub open spec fn poseidon_spec(r_f: nat, r_p: nat) -> SpecView {
    let constants = sampled_many(
        start(T as nat, r_f, r_p),
        ((r_f + r_p) * T) as nat,
        RETRY_LIMIT as nat,
    );
    let xs = sampled_many(constants.1, T as nat, 0);
    let ys = sampled_many(xs.1, T as nat, 0);
    SpecView {
        r_f,
        r_p,
        constants: constants.0,
        mds: Seq::new(
            (T * T) as nat,
            |k: int| inverse_or_zero(fe_add(xs.0[k / (T as int)], ys.0[k % (T as int)])),
        ),
    }
}

/// The parameters of a permutation.
pub struct Spec {
    pub(crate) r_f: usize,
    pub(crate) r_p: usize,
    pub(crate) constants: Vec<Fe>,
    pub(crate) mds: Vec<Fe>,
}

impl View for Spec {
    type V = SpecView;

    closed spec fn view(&self) -> SpecView {
        SpecView {
            r_f: self.r_f as nat,
            r_p: self.r_p as nat,
            constants: fe_views(self.constants@),
            mds: fe_views(self.mds@),
        }
    }
}

/// Whether parameters hold a constant for every word of every round, and a
/// full matrix.
pub open spec fn spec_complete(v: SpecView) -> bool {
    &&& v.constants.len() == (v.r_f + v.r_p) * T
    &&& v.mds.len() == T * T
}

impl Spec {
    /// Whether the parameters are complete and their round count fits a
    /// machine word.
    pub closed spec fn wf(&self) -> bool {
        &&& spec_complete(self@)
        &&& self.r_f + self.r_p <= usize::MAX
    }

    /// Well-formed parameters are complete.
    pub proof fn lemma_wf(&self)
        requires
            self.wf(),
        ensures
            spec_complete(self@),
    {
    }

    /// The parameters for `r_f` full rounds and `r_p` partial rounds.
    pub fn new(r_f: usize, r_p: usize) -> (spec: Self)
        requires
            (r_f + r_p) * T <= usize::MAX,
        ensures
            spec.wf(),
            spec@ == poseidon_spec(r_f as nat, r_p as nat),
    {
        let mut grain = Grain::new(T, r_f, r_p);
        let constants = grain.next_elements((r_f + r_p) * T, RETRY_LIMIT);
        let xs = grain.next_elements(T, 0);
        let ys = grain.next_elements(T, 0);
        let mut mds: Vec<Fe> = Vec::new();
        let mut i: usize = 0;
        while i < T
            invariant
                i <= T,
                xs.len() == T,
                ys.len() == T,
                mds.len() == i * T,
                forall|k: int|
                    0 <= k < i * T ==> (#[trigger] mds[k])@ == inverse_or_zero(
                        fe_add(xs[k / (T as int)]@, ys[k % (T as int)]@),
                    ),
            decreases T - i,
        {
            let mut j: usize = 0;
            while j < T
                invariant
                    i < T,
                    j <= T,
                    xs.len() == T,
                    ys.len() == T,
                    mds.len() == i * T + j,
                    forall|k: int|
                        0 <= k < i * T + j ==> (#[trigger] mds[k])@ == inverse_or_zero(
                            fe_add(xs[k / (T as int)]@, ys[k % (T as int)]@),
                        ),
                decreases T - j,
            {
                let sum = xs[i].add(&ys[j]);
                mds.push(sum.invert_or_zero());
                j = j + 1;
            }
            i = i + 1;
        }
        let spec = Spec { r_f, r_p, constants, mds };
        proof {
            let want = poseidon_spec(r_f as nat, r_p as nat);
            assert(spec@.mds =~= want.mds);
        }
        spec
    }

    /// The constant of word `i` in round `r`.
    pub fn constant(&self, r: usize, i: usize) -> (c: &Fe)
        requires
            self.wf(),
            r < self@.r_f + self@.r_p,
            i < T,
        ensures
            c@ == self@.constants[r * T + i],
    {
        let n: usize = self.constants.len();
        assert(n == fe_views(self.constants@).len());
        assert((self.r_f + self.r_p) * 5 == n);
        assert(r * 5 + i < (self.r_f + self.r_p) * 5) by (nonlinear_arith)
            requires
                r < self.r_f + self.r_p,
                i < 5,
        ;
        assert(r * T == r * 5);
        &self.constants[r * T + i]
    }

    /// The entry of the matrix in row `i` and column `j`.
    pub fn mds_entry(&self, i: usize, j: usize) -> (c: &Fe)
        requires
            self.wf(),
            i < T,
            j < T,
        ensures
            c@ == self@.mds[i * T + j],
    {
        &self.mds[i * T + j]
    }

    /// The number of rounds.
    pub fn round_count(&self) -> (n: usize)
        requires
            self.wf(),
        ensures
            n == self@.r_f + self@.r_p,
    {
        self.r_f + self.r_p
    }

    /// The number of full rounds.
    pub fn full_rounds(&self) -> (n: usize)
        ensures
            n == self@.r_f,
    {
        self.r_f
    }

    /// The number of partial rounds.
    pub fn partial_rounds(&self) -> (n: usize)
        ensures
            n == self@.r_p,
    {
        self.r_p
    }
}

} // verus!
