//! Limbs and integers as the circuits hold them: the witness value of each
//! cell, tagged with the range that its limbs are known to be in.

use crate::big_integer::limb_math::{constant_limbs, lemma_pow2_mul, lemma_value_push, limbs_value};
use crate::big_integer::{Fresh, Muled, RangeType};
use crate::bigint::{big_add, big_shl, BigNat, MAX_SHIFT};
use crate::encryptor::grain::fe_views;
use crate::field::Fe;
use core::marker::PhantomData;
use vstd::arithmetic::power2::pow2;
use vstd::prelude::*;

verus! {

/// One limb of an integer: a field element, and the range it is in.
#[derive(Debug)]
pub struct AssignedLimb<T: RangeType> {
    pub(crate) value: Fe,
    pub(crate) range: PhantomData<T>,
}

impl<T: RangeType> View for AssignedLimb<T> {
    type V = nat;

    closed spec fn view(&self) -> nat {
        self.value@
    }
}

impl<T: RangeType> Clone for AssignedLimb<T> {
    fn clone(&self) -> (limb: Self)
        ensures
            limb@ == self@,
    {
        AssignedLimb { value: self.value, range: PhantomData }
    }
}

impl<T: RangeType> AssignedLimb<T> {
    /// The limb that holds the given value.
    pub fn from(value: Fe) -> (limb: Self)
        ensures
            limb@ == value@,
    {
        AssignedLimb { value, range: PhantomData }
    }

    /// The value that the limb holds.
    pub fn assigned_val(&self) -> (value: Fe)
        ensures
            value@ == self@,
    {
        self.value
    }

    /// The same limb, counted as one that came out of a multiplication.
    pub fn to_muled(self) -> (limb: AssignedLimb<Muled>)
        ensures
            limb@ == self@,
    {
        AssignedLimb { value: self.value, range: PhantomData }
    }
}

/// The numbers that limbs hold.
pub open spec fn limb_views<T: RangeType>(limbs: Seq<AssignedLimb<T>>) -> Seq<nat> {
    Seq::new(limbs.len(), |i: int| limbs[i]@)
}

/// An integer that is about to enter a circuit: its limbs, if they are
/// known, and their number.
#[derive(Debug)]
pub struct UnassignedInteger {
    pub value: Option<Vec<Fe>>,
    pub num_limbs: usize,
}

impl Clone for UnassignedInteger {
    fn clone(&self) -> (integer: Self)
        ensures
            integer.num_limbs == self.num_limbs,
            integer.value is Some <==> self.value is Some,
            integer.value matches Some(v) ==> v@ == self.value->0@,
    {
        let value = match &self.value {
            None => None,
            Some(v) => Some(v.clone()),
        };
        UnassignedInteger { value, num_limbs: self.num_limbs }
    }
}

impl UnassignedInteger {
    /// The integer whose limbs are the given values.
    pub fn from(value: Vec<Fe>) -> (integer: Self)
        ensures
            integer.num_limbs == value.len(),
            integer.value == Some(value),
    {
        let num_limbs = value.len();
        UnassignedInteger { value: Some(value), num_limbs }
    }

    /// An integer of `num_limbs` limbs whose values are not known.
    pub fn without_witness(num_limbs: usize) -> (integer: Self)
        ensures
            integer.num_limbs == num_limbs,
            integer.value is None,
    {
        UnassignedInteger { value: None, num_limbs }
    }

    /// Limb `idx`, if the limbs are known.
    pub fn limb(&self, idx: usize) -> (limb: Option<Fe>)
        requires
            self.value matches Some(v) ==> idx < v.len(),
        ensures
            limb is Some <==> self.value is Some,
            limb matches Some(e) ==> e == self.value->0@[idx as int],
    {
        match &self.value {
            None => None,
            Some(v) => Some(v[idx]),
        }
    }

    /// The number of limbs.
    pub fn num_limbs(&self) -> (n: usize)
        ensures
            n == self.num_limbs,
    {
        self.num_limbs
    }
}

/// An integer inside a circuit: its limbs, lowest first.
#[derive(Debug)]
pub struct AssignedInteger<T: RangeType> {
    pub(crate) limbs: Vec<AssignedLimb<T>>,
}

impl<T: RangeType> View for AssignedInteger<T> {
    type V = Seq<nat>;

    closed spec fn view(&self) -> Seq<nat> {
        limb_views(self.limbs@)
    }
}

impl<T: RangeType> Clone for AssignedInteger<T> {
    fn clone(&self) -> (integer: Self)
        ensures
            integer@ == self@,
    {
        AssignedInteger::new(self.limbs.as_slice())
    }
}

impl<T: RangeType> AssignedInteger<T> {
    /// The integer with the given limbs.
    pub fn new(limbs: &[AssignedLimb<T>]) -> (integer: Self)
        ensures
            integer@ == limb_views(limbs@),
    {
        let mut copy: Vec<AssignedLimb<T>> = Vec::new();
        let mut i: usize = 0;
        while i < limbs.len()
            invariant
                i <= limbs.len(),
                copy.len() == i,
                forall|k: int| 0 <= k < i ==> (#[trigger] copy@[k])@ == limbs@[k]@,
            decreases limbs.len() - i,
        {
            copy.push(limbs[i].clone());
            i = i + 1;
        }
        proof {
            assert(limb_views(copy@) =~= limb_views(limbs@));
        }
        AssignedInteger { limbs: copy }
    }

    /// The integer whose limbs hold the given values.
    pub fn from_values(values: &[Fe]) -> (integer: Self)
        ensures
            integer@ == fe_views(values@),
    {
        let mut limbs: Vec<AssignedLimb<T>> = Vec::new();
        let mut i: usize = 0;
        while i < values.len()
            invariant
                i <= values.len(),
                limbs.len() == i,
                forall|k: int| 0 <= k < i ==> (#[trigger] limbs@[k])@ == values@[k]@,
            decreases values.len() - i,
        {
            limbs.push(AssignedLimb::from(values[i]));
            i = i + 1;
        }
        proof {
            assert(limb_views(limbs@) =~= fe_views(values@));
        }
        AssignedInteger { limbs }
    }

    /// The limbs.
    pub fn limbs(&self) -> (limbs: Vec<AssignedLimb<T>>)
        ensures
            limb_views(limbs@) == self@,
    {
        let copy = AssignedInteger::new(self.limbs.as_slice());
        copy.limbs
    }

    /// The value of limb `idx`.
    pub fn limb(&self, idx: usize) -> (value: Fe)
        requires
            idx < self@.len(),
        ensures
            value@ == self@[idx as int],
    {
        self.limbs[idx].assigned_val()
    }

    /// The number of limbs.
    pub fn num_limbs(&self) -> (n: usize)
        ensures
            n == self@.len(),
    {
        self.limbs.len()
    }

    /// The integer that the limbs spell when each is `width` bits wide.
    pub fn to_big_uint(&self, width: usize) -> (value: BigNat)
        requires
            self@.len() >= 1,
            width * self@.len() <= MAX_SHIFT,
        ensures
            value@ == limbs_value(self@, pow2(width as nat)),
    {
        let n = self.limbs.len();
        let ghost base = pow2(width as nat);
        let mut acc = self.limbs[0].assigned_val().to_big();
        let mut i: usize = 1;
        proof {
            assert(self@.take(1) =~= Seq::<nat>::empty().push(self@[0]));
            lemma_value_push(Seq::<nat>::empty(), self@[0], base);
            vstd::arithmetic::power::lemma_pow0(base as int);
            assert(limbs_value(Seq::<nat>::empty(), base) == 0);
        }
        while i < n
            invariant
                1 <= i <= n,
                n == self.limbs.len(),
                n == self@.len(),
                width * n <= MAX_SHIFT,
                base == pow2(width as nat),
                acc@ == limbs_value(self@.take(i as int), base),
            decreases n - i,
        {
            assert(width * i <= width * n) by (nonlinear_arith)
                requires
                    i <= n,
            ;
            let limb = self.limbs[i].assigned_val().to_big();
            let shifted = big_shl(&limb, width * i);
            proof {
                assert(self@.take(i + 1) =~= self@.take(i as int).push(self@[i as int]));
                lemma_value_push(self@.take(i as int), self@[i as int], base);
                lemma_pow2_mul(width as nat, i as nat);
            }
            acc = big_add(&acc, &shifted);
            i = i + 1;
        }
        proof {
            assert(self@.take(n as int) =~= self@);
        }
        acc
    }

    /// Replaces limb `idx`.
    pub fn replace_limb(&mut self, idx: usize, limb: AssignedLimb<T>)
        requires
            idx < old(self)@.len(),
        ensures
            final(self)@ == old(self)@.update(idx as int, limb@),
    {
        self.limbs.set(idx, limb);
        proof {
            assert(limb_views(self.limbs@) =~= limb_views(old(self).limbs@).update(
                idx as int,
                limb@,
            ));
        }
    }

    /// Appends `num_extend_limbs` limbs that hold the given value, which is
    /// meant to be zero.
    pub fn extend_limbs(&mut self, num_extend_limbs: usize, zero_value: Fe)
        ensures
            final(self)@ == old(self)@ + constant_limbs(num_extend_limbs as nat, zero_value@),
    {
        let ghost before = self@;
        let mut i: usize = 0;
        proof {
            assert(before + constant_limbs(0, zero_value@) =~= before);
        }
        while i < num_extend_limbs
            invariant
                i <= num_extend_limbs,
                before == old(self)@,
                self@ == before + constant_limbs(i as nat, zero_value@),
            decreases num_extend_limbs - i,
        {
            let ghost now = limb_views(self.limbs@);
            self.limbs.push(AssignedLimb::from(zero_value));
            proof {
                assert(limb_views(self.limbs@) =~= now.push(zero_value@));
                assert(now.push(zero_value@) =~= before + constant_limbs(
                    (i + 1) as nat,
                    zero_value@,
                ));
            }
            i = i + 1;
        }
    }
}

impl AssignedInteger<Fresh> {
    /// The same integer as one that came out of a multiplication: its limbs,
    /// followed by one copy of `zero_limb` less than it has limbs, so that it
    /// has as many limbs as its square.
    pub fn to_muled(&self, zero_limb: AssignedLimb<Muled>) -> (integer: AssignedInteger<Muled>)
        requires
            self@.len() >= 1,
        ensures
            integer@ == self@ + constant_limbs((self@.len() - 1) as nat, zero_limb@),
    {
        let n = self.limbs.len();
        let mut limbs: Vec<AssignedLimb<Muled>> = Vec::new();
        let mut i: usize = 0;
        while i < n
            invariant
                i <= n,
                n == self.limbs.len(),
                limbs.len() == i,
                forall|k: int| 0 <= k < i ==> (#[trigger] limbs@[k])@ == self.limbs@[k]@,
            decreases n - i,
        {
            limbs.push(self.limbs[i].clone().to_muled());
            i = i + 1;
        }
        let mut j: usize = 0;
        while j < n - 1
            invariant
                j <= n - 1,
                n == self.limbs.len(),
                limbs.len() == n + j,
                forall|k: int| 0 <= k < n ==> (#[trigger] limbs@[k])@ == self.limbs@[k]@,
                forall|k: int| n <= k < n + j ==> (#[trigger] limbs@[k])@ == zero_limb@,
            decreases n - 1 - j,
        {
            limbs.push(zero_limb.clone());
            j = j + 1;
        }
        proof {
            assert(limb_views(limbs@) =~= self@ + constant_limbs((n - 1) as nat, zero_limb@));
        }
        AssignedInteger { limbs }
    }
}

} // verus!
