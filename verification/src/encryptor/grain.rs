//! The bit generator that the permutation's constants are drawn from: an
//! 80-bit linear feedback shift register in self-shrinking mode.
//!
//! Two bounds make every draw end: a draw skips at most [`SKIP_LIMIT`] pairs
//! of bits before it takes the next bit as it comes, and a field element is
//! redrawn at most [`RETRY_LIMIT`] times before the number is reduced by the
//! order of the field.

use crate::bigint::{
    be_value, le_value, lemma_be_value_reverse, BigNat,
};
use crate::field::{modulus, Fe};
use vstd::arithmetic::power2::{lemma_pow2_pos, lemma_pow2_unfold, pow2};
use vstd::prelude::*;

verus! {

/// The number of bits of the register.
pub const STATE_BITS: usize = 80;

/// The number of bits of the field's order.
pub const FIELD_BITS: usize = 254;

/// The most pairs of bits that one draw skips.
pub const SKIP_LIMIT: usize = 4096;

/// The most times that one field element is redrawn.
pub const RETRY_LIMIT: usize = 256;

/// The bit that the register feeds back.
pub open spec fn feedback(s: Seq<bool>) -> bool {
    ((((s[0] != s[13]) != s[23]) != s[38]) != s[51]) != s[62]
}

/// The register after one clock: the oldest bit leaves, the feedback enters.
pub open spec fn clocked(s: Seq<bool>) -> Seq<bool> {
    s.skip(1).push(feedback(s))
}

/// The register after `n` clocks.
pub open spec fn clocked_n(s: Seq<bool>, n: nat) -> Seq<bool>
    decreases n,
{
    if n == 0 {
        s
    } else {
        clocked(clocked_n(s, (n - 1) as nat))
    }
}

/// One draw in self-shrinking mode: bits are clocked out in pairs, and the
/// second bit of the first pair that starts with a one is the bit drawn.
/// After `fuel` skipped pairs the next pair is taken whatever it starts with.
/// Gives the bit and the register after the draw.
pub open spec fn shrunk(s: Seq<bool>, fuel: nat) -> (bool, Seq<bool>)
    decreases fuel,
{
    let after = clocked(clocked(s));
    if feedback(s) || fuel == 0 {
        (feedback(clocked(s)), after)
    } else {
        shrunk(after, (fuel - 1) as nat)
    }
}

/// `n` draws read as a number, first bit highest, and the register after
/// them.
pub open spec fn read_number(s: Seq<bool>, n: nat) -> (nat, Seq<bool>)
    decreases n,
{
    if n == 0 {
        (0, s)
    } else {
        let before = read_number(s, (n - 1) as nat);
        let draw = shrunk(before.1, SKIP_LIMIT as nat);
        (
            2 * before.0 + if draw.0 {
                1nat
            } else {
                0nat
            },
            draw.1,
        )
    }
}

/// A field element drawn by rejection: numbers of [`FIELD_BITS`] bits are
/// read until one is below the order; after `tries` rejections the number
/// read is reduced by the order instead. Gives the element and the register
/// after the draw.
pub open spec fn sampled(s: Seq<bool>, tries: nat) -> (nat, Seq<bool>)
    decreases tries,
{
    let read = read_number(s, FIELD_BITS as nat);
    if read.0 < modulus() || tries == 0 {
        (read.0 % modulus(), read.1)
    } else {
        sampled(read.1, (tries - 1) as nat)
    }
}

/// `n` field elements drawn one after the other, and the register after
/// them.
pub open spec fn sampled_many(s: Seq<bool>, n: nat, tries: nat) -> (Seq<nat>, Seq<bool>)
    decreases n,
{
    if n == 0 {
        (Seq::empty(), s)
    } else {
        let before = sampled_many(s, (n - 1) as nat, tries);
        let draw = sampled(before.1, tries);
        (before.0.push(draw.0), draw.1)
    }
}

/// The lowest `n` bits of `v`, highest first.
pub open spec fn bits_of(v: nat, n: nat) -> Seq<bool> {
    Seq::new(n, |k: int| (v / pow2((n - 1 - k) as nat)) % 2 == 1)
}

/// The register as it is seeded for a prime field of [`FIELD_BITS`] bits, a
/// power S-box, a state of `t` words and the given numbers of rounds.
pub open spec fn seed(t: nat, r_f: nat, r_p: nat) -> Seq<bool> {
    bits_of(1, 2) + bits_of(0, 4) + bits_of(FIELD_BITS as nat, 12) + bits_of(t, 12) + bits_of(
        r_f,
        10,
    ) + bits_of(r_p, 10) + bits_of(0x3fff_ffff, 30)
}

/// The register from which the first constant is drawn: the seed clocked
/// 160 times.
pub open spec fn start(t: nat, r_f: nat, r_p: nat) -> Seq<bool> {
    clocked_n(seed(t, r_f, r_p), 160)
}

/// Reading `a + b` bits is reading `a` bits and then `b` bits below them.
pub proof fn lemma_read_number_split(s: Seq<bool>, a: nat, b: nat)
    ensures
        read_number(s, a + b).0 == read_number(s, a).0 * pow2(b) + read_number(
            read_number(s, a).1,
            b,
        ).0,
        read_number(s, a + b).1 == read_number(read_number(s, a).1, b).1,
        read_number(s, b).0 < pow2(b),
    decreases b,
{
    if b == 0 {
        assert(pow2(0) == 1) by {
            vstd::arithmetic::power2::lemma2_to64();
        }
    } else {
        lemma_read_number_split(s, a, (b - 1) as nat);
        lemma_read_number_split(s, 0, (b - 1) as nat);
        lemma_pow2_unfold(b);
        let hi = read_number(s, a).0;
        let p = pow2((b - 1) as nat);
        assert(2 * (hi * p) == hi * (2 * p)) by (nonlinear_arith);
    }
}

/// The bit generator.
pub struct Grain {
    pub(crate) state: Vec<bool>,
}

impl Grain {
    /// Whether the register has its 80 bits.
    pub closed spec fn wf(&self) -> bool {
        self.state@.len() == STATE_BITS
    }

    /// The bits of the register, oldest first.
    pub closed spec fn bits(&self) -> Seq<bool> {
        self.state@
    }

    /// Appends the lowest `n` bits of `v`, highest first.
    fn push_bits(bits: &mut Vec<bool>, v: u64, n: usize)
        requires
            1 <= n <= 32,
        ensures
            final(bits)@ == old(bits)@ + bits_of(v as nat, n as nat),
    {
        let ghost before = bits@;
        let mut divisor: u64 = 1;
        let mut i: usize = 1;
        proof {
            assert(pow2(0) == 1) by {
                vstd::arithmetic::power2::lemma2_to64();
            }
        }
        while i < n
            invariant
                1 <= i <= n <= 32,
                divisor == pow2((i - 1) as nat),
                divisor <= 0x8000_0000,
            decreases n - i,
        {
            proof {
                lemma_pow2_unfold(i as nat);
                lemma_pow2_bound(i as nat);
            }
            divisor = divisor * 2;
            i = i + 1;
        }
        let mut k: usize = 0;
        while k < n
            invariant
                k <= n <= 32,
                k < n ==> divisor == pow2((n - 1 - k) as nat),
                bits@.len() == before.len() + k,
                forall|j: int| 0 <= j < before.len() ==> bits@[j] == before[j],
                forall|j: int|
                    0 <= j < k ==> bits@[before.len() + j] == bits_of(v as nat, n as nat)[j],
            decreases n - k,
        {
            proof {
                lemma_pow2_pos((n - 1 - k) as nat);
                if k + 1 < n {
                    lemma_pow2_unfold((n - 1 - k) as nat);
                }
            }
            bits.push((v / divisor) % 2 == 1);
            divisor = divisor / 2;
            k = k + 1;
        }
        proof {
            assert(bits@ =~= before + bits_of(v as nat, n as nat));
        }
    }

    /// The generator for a state of `t` words and the given numbers of
    /// rounds, ready for the first draw.
    pub fn new(t: usize, r_f: usize, r_p: usize) -> (grain: Self)
        ensures
            grain.wf(),
            grain.bits() == start(t as nat, r_f as nat, r_p as nat),
    {
        let mut state: Vec<bool> = Vec::new();
        Self::push_bits(&mut state, 1, 2);
        Self::push_bits(&mut state, 0, 4);
        Self::push_bits(&mut state, FIELD_BITS as u64, 12);
        Self::push_bits(&mut state, t as u64, 12);
        Self::push_bits(&mut state, r_f as u64, 10);
        Self::push_bits(&mut state, r_p as u64, 10);
        Self::push_bits(&mut state, 0x3fff_ffff, 30);
        let mut grain = Grain { state };
        let mut i: usize = 0;
        while i < 160
            invariant
                i <= 160,
                grain.wf(),
                grain.bits() == clocked_n(seed(t as nat, r_f as nat, r_p as nat), i as nat),
            decreases 160 - i,
        {
            grain.clock();
            i = i + 1;
        }
        grain
    }

    /// Clocks the register once and gives the bit fed back.
    fn clock(&mut self) -> (bit: bool)
        requires
            old(self).wf(),
        ensures
            final(self).wf(),
            bit == feedback(old(self).bits()),
            final(self).bits() == clocked(old(self).bits()),
    {
        let s = &self.state;
        let bit = ((((s[0] != s[13]) != s[23]) != s[38]) != s[51]) != s[62];
        let ghost before = self.state@;
        self.state.remove(0);
        self.state.push(bit);
        proof {
            assert(self.state@ =~= clocked(before));
        }
        bit
    }

    /// Draws one bit in self-shrinking mode.
    pub fn next_bit(&mut self) -> (bit: bool)
        requires
            old(self).wf(),
        ensures
            final(self).wf(),
            (bit, final(self).bits()) == shrunk(old(self).bits(), SKIP_LIMIT as nat),
    {
        let ghost begin = self.bits();
        let mut fuel: usize = SKIP_LIMIT;
        loop
            invariant
                self.wf(),
                begin == old(self).bits(),
                fuel <= SKIP_LIMIT,
                shrunk(self.bits(), fuel as nat) == shrunk(begin, SKIP_LIMIT as nat),
            decreases fuel,
        {
            let ghost before = self.bits();
            let first = self.clock();
            let second = self.clock();
            proof {
                let after = clocked(clocked(before));
                assert(shrunk(before, fuel as nat) == if feedback(before) || fuel == 0 {
                    (feedback(clocked(before)), after)
                } else {
                    shrunk(after, (fuel - 1) as nat)
                });
            }
            if first || fuel == 0 {
                return second;
            }
            fuel = fuel - 1;
        }
    }

    /// Draws `n` bits, at most eight, and reads them as a number.
    fn next_bits(&mut self, n: usize) -> (v: u8)
        requires
            old(self).wf(),
            n <= 8,
        ensures
            final(self).wf(),
            (v as nat, final(self).bits()) == read_number(old(self).bits(), n as nat),
    {
        let ghost begin = self.bits();
        let mut v: u8 = 0;
        let mut i: usize = 0;
        proof {
            assert(pow2(0) == 1) by {
                vstd::arithmetic::power2::lemma2_to64();
            }
        }
        while i < n
            invariant
                i <= n <= 8,
                self.wf(),
                (v as nat, self.bits()) == read_number(begin, i as nat),
                v < pow2(i as nat),
            decreases n - i,
        {
            proof {
                lemma_pow2_unfold((i + 1) as nat);
                lemma_pow2_bound((i + 1) as nat);
            }
            let bit = self.next_bit();
            v = 2 * v + if bit {
                1
            } else {
                0
            };
            i = i + 1;
        }
        v
    }

    /// Draws a number of [`FIELD_BITS`] bits and gives it as 32 little-endian
    /// bytes.
    pub fn next_number(&mut self) -> (bytes: [u8; 32])
        requires
            old(self).wf(),
        ensures
            final(self).wf(),
            (le_value(bytes@), final(self).bits()) == read_number(
                old(self).bits(),
                FIELD_BITS as nat,
            ),
    {
        let ghost begin = self.bits();
        let mut high_first: Vec<u8> = Vec::new();
        let top = self.next_bits(6);
        high_first.push(top);
        let mut i: usize = 1;
        proof {
            assert(high_first@.drop_last() =~= Seq::<u8>::empty());
            assert(be_value(high_first@.drop_last()) == 0);
        }
        while i < 32
            invariant
                1 <= i <= 32,
                self.wf(),
                high_first.len() == i,
                (be_value(high_first@), self.bits()) == read_number(
                    begin,
                    (6 + 8 * (i - 1)) as nat,
                ),
            decreases 32 - i,
        {
            let ghost read = (6 + 8 * (i - 1)) as nat;
            let ghost middle = self.bits();
            let byte = self.next_bits(8);
            proof {
                lemma_read_number_split(begin, read, 8);
                assert(pow2(8) == 256) by {
                    vstd::arithmetic::power2::lemma2_to64();
                }
                assert(high_first@.push(byte).drop_last() =~= high_first@);
            }
            high_first.push(byte);
            i = i + 1;
        }
        let mut bytes: [u8; 32] = [0u8; 32];
        let mut k: usize = 0;
        while k < 32
            invariant
                k <= 32,
                high_first.len() == 32,
                forall|j: int| 0 <= j < k ==> bytes@[j] == high_first@[31 - j],
            decreases 32 - k,
        {
            bytes[k] = high_first[31 - k];
            k = k + 1;
        }
        proof {
            assert(bytes@ =~= high_first@.reverse());
            lemma_be_value_reverse(high_first@);
        }
        bytes
    }

    /// Draws a field element, redrawing at most `tries` times.
    pub fn next_element(&mut self, tries: usize) -> (e: Fe)
        requires
            old(self).wf(),
        ensures
            final(self).wf(),
            (e@, final(self).bits()) == sampled(old(self).bits(), tries as nat),
    {
        let ghost begin = self.bits();
        let mut left: usize = tries;
        loop
            invariant
                self.wf(),
                begin == old(self).bits(),
                sampled(self.bits(), left as nat) == sampled(begin, tries as nat),
            decreases left,
        {
            let ghost before = self.bits();
            let bytes = self.next_number();
            proof {
                let read = read_number(before, FIELD_BITS as nat);
                assert(sampled(before, left as nat) == if read.0 < modulus() || left == 0 {
                    (read.0 % modulus(), read.1)
                } else {
                    sampled(read.1, (left - 1) as nat)
                });
            }
            match Fe::from_bytes(&bytes) {
                Some(e) => {
                    proof {
                        vstd::arithmetic::div_mod::lemma_small_mod(le_value(bytes@), modulus());
                    }
                    return e;
                },
                None => {
                    if left == 0 {
                        let mut plain: Vec<u8> = Vec::new();
                        let mut i: usize = 0;
                        while i < 32
                            invariant
                                i <= 32,
                                plain.len() == i,
                                forall|k: int| 0 <= k < i ==> plain@[k] == bytes@[k],
                            decreases 32 - i,
                        {
                            plain.push(bytes[i]);
                            i = i + 1;
                        }
                        proof {
                            assert(plain@ =~= bytes@);
                        }
                        return Fe::from_big(&BigNat { bytes: plain });
                    }
                    left = left - 1;
                },
            }
        }
    }

    /// Draws `n` field elements.
    pub fn next_elements(&mut self, n: usize, tries: usize) -> (v: Vec<Fe>)
        requires
            old(self).wf(),
        ensures
            final(self).wf(),
            v.len() == n,
            (fe_views(v@), final(self).bits()) == sampled_many(
                old(self).bits(),
                n as nat,
                tries as nat,
            ),
    {
        let ghost begin = self.bits();
        let mut v: Vec<Fe> = Vec::new();
        let mut i: usize = 0;
        proof {
            assert(fe_views(v@) =~= Seq::<nat>::empty());
        }
        while i < n
            invariant
                i <= n,
                self.wf(),
                v.len() == i,
                (fe_views(v@), self.bits()) == sampled_many(begin, i as nat, tries as nat),
            decreases n - i,
        {
            let ghost before = fe_views(v@);
            let e = self.next_element(tries);
            v.push(e);
            proof {
                assert(fe_views(v@) =~= before.push(e@));
            }
            i = i + 1;
        }
        v
    }
}

/// The numbers that field elements stand for.
pub open spec fn fe_views(v: Seq<Fe>) -> Seq<nat> {
    Seq::new(v.len(), |i: int| v[i]@)
}

/// Small powers of two stay small.
pub proof fn lemma_pow2_bound(e: nat)
    requires
        e <= 32,
    ensures
        pow2(e) <= 0x1_0000_0000,
        e <= 31 ==> pow2(e) <= 0x8000_0000,
        e <= 8 ==> pow2(e) <= 256,
        e <= 7 ==> pow2(e) <= 128,
{
    vstd::arithmetic::power2::lemma2_to64();
    if e < 32 {
        vstd::arithmetic::power2::lemma_pow2_strictly_increases(e, 32);
    }
    if e < 31 {
        vstd::arithmetic::power2::lemma_pow2_strictly_increases(e, 31);
    }
    if e < 8 {
        vstd::arithmetic::power2::lemma_pow2_strictly_increases(e, 8);
    }
    if e < 7 {
        vstd::arithmetic::power2::lemma_pow2_strictly_increases(e, 7);
    }
}

} // verus!
