//! Arbitrary-precision unsigned integers.
//!
//! A [`BigNat`] is held as little-endian bytes and viewed as the natural
//! number those bytes spell. The arithmetic itself is done by `num_bigint`.

use crate::big_integer::limb_math::{
    lemma_pow_nat, lemma_value_bound, lemma_value_push, lemma_value_split, lemma_value_zeros,
    limbs_value,
};
use num_bigint::{BigUint, RandomBits};
use rand::Rng;
use vstd::arithmetic::power::pow;
use vstd::arithmetic::power2::pow2;
use vstd::prelude::*;
use vstd::string::StringSliceAdditionalSpecFns;

verus! {

/// The most places that a number is shifted up by: as many as the largest
/// power of two that is ever formed has.
pub const MAX_SHIFT: usize = 0xffff_ffff;

/// The number spelled by little-endian bytes.
pub open spec fn le_value(s: Seq<u8>) -> nat
    decreases s.len(),
{
    if s.len() == 0 {
        0
    } else {
        s[0] as nat + 256 * le_value(s.skip(1))
    }
}

/// The number spelled by big-endian bytes.
pub open spec fn be_value(s: Seq<u8>) -> nat
    decreases s.len(),
{
    if s.len() == 0 {
        0
    } else {
        256 * be_value(s.drop_last()) + s.last() as nat
    }
}

/// The number of bits needed to write `n` (zero for zero).
pub open spec fn bit_length(n: nat) -> nat
    decreases n,
{
    if n == 0 {
        0
    } else {
        1 + bit_length(n / 2)
    }
}

/// An unsigned integer of any size, as little-endian bytes.
/// Trailing zero bytes are allowed and do not change the value.
#[derive(Debug)]
pub struct BigNat {
    pub bytes: Vec<u8>,
}

impl View for BigNat {
    type V = nat;

    open spec fn view(&self) -> nat {
        le_value(self.bytes@)
    }
}

impl Clone for BigNat {
    fn clone(&self) -> (r: Self)
        ensures
            r.bytes@ == self.bytes@,
            r@ == self@,
    {
        let bytes = self.bytes.clone();
        assert(bytes@ =~= self.bytes@);
        BigNat { bytes }
    }
}

/// `BigUint` addition: the sum of the two numbers.
#[verifier::external_body]
pub(crate) fn big_add(a: &BigNat, b: &BigNat) -> (r: BigNat)
    ensures
        r@ == a@ + b@,
{
    let x = BigUint::from_bytes_le(&a.bytes);
    let y = BigUint::from_bytes_le(&b.bytes);
    BigNat { bytes: (x + y).to_bytes_le() }
}

/// `BigUint` subtraction, which panics when the result would be negative:
/// the difference of the two numbers.
#[verifier::external_body]
pub(crate) fn big_sub(a: &BigNat, b: &BigNat) -> (r: BigNat)
    requires
        a@ >= b@,
    ensures
        r@ == a@ - b@,
{
    let x = BigUint::from_bytes_le(&a.bytes);
    let y = BigUint::from_bytes_le(&b.bytes);
    BigNat { bytes: (x - y).to_bytes_le() }
}

/// `BigUint` multiplication: the product of the two numbers.
#[verifier::external_body]
pub(crate) fn big_mul(a: &BigNat, b: &BigNat) -> (r: BigNat)
    ensures
        r@ == a@ * b@,
{
    let x = BigUint::from_bytes_le(&a.bytes);
    let y = BigUint::from_bytes_le(&b.bytes);
    BigNat { bytes: (x * y).to_bytes_le() }
}

/// `BigUint` division, which panics on a zero divisor: the quotient rounded
/// down.
#[verifier::external_body]
pub(crate) fn big_div(a: &BigNat, b: &BigNat) -> (r: BigNat)
    requires
        b@ > 0,
    ensures
        r@ == a@ / b@,
{
    let x = BigUint::from_bytes_le(&a.bytes);
    let y = BigUint::from_bytes_le(&b.bytes);
    BigNat { bytes: (x / y).to_bytes_le() }
}

/// `BigUint` remainder, which panics on a zero divisor: the remainder of the
/// division rounded down.
#[verifier::external_body]
pub(crate) fn big_rem(a: &BigNat, b: &BigNat) -> (r: BigNat)
    requires
        b@ > 0,
    ensures
        r@ == a@ % b@,
{
    let x = BigUint::from_bytes_le(&a.bytes);
    let y = BigUint::from_bytes_le(&b.bytes);
    BigNat { bytes: (x % y).to_bytes_le() }
}

/// `BigUint::pow`, for a base of at most two, whose powers stay within what
/// a machine holds: the base multiplied by itself `exponent` times.
#[verifier::external_body]
pub(crate) fn big_pow(base: &BigNat, exponent: u32) -> (r: BigNat)
    requires
        base@ <= 2,
    ensures
        r@ == pow(base@ as int, exponent as nat),
{
    let x = BigUint::from_bytes_le(&base.bytes);
    BigNat { bytes: x.pow(exponent).to_bytes_le() }
}

/// `BigUint::modpow`, which panics on a zero modulus: the power reduced by
/// the modulus.
#[verifier::external_body]
pub(crate) fn big_modpow(base: &BigNat, exponent: &BigNat, modulus: &BigNat) -> (r: BigNat)
    requires
        modulus@ > 0,
    ensures
        r@ == pow(base@ as int, exponent@) % (modulus@ as int),
{
    let x = BigUint::from_bytes_le(&base.bytes);
    let e = BigUint::from_bytes_le(&exponent.bytes);
    let m = BigUint::from_bytes_le(&modulus.bytes);
    BigNat { bytes: x.modpow(&e, &m).to_bytes_le() }
}

/// `BigUint` left shift, by no more than [`MAX_SHIFT`] places: the number
/// times two to the `n`.
#[verifier::external_body]
pub(crate) fn big_shl(a: &BigNat, n: usize) -> (r: BigNat)
    requires
        n <= MAX_SHIFT,
    ensures
        r@ == a@ * pow2(n as nat),
{
    let x = BigUint::from_bytes_le(&a.bytes);
    BigNat { bytes: (x << n).to_bytes_le() }
}

/// `BigUint` right shift: the number divided by two to the `n`, rounded down.
#[verifier::external_body]
pub(crate) fn big_shr(a: &BigNat, n: usize) -> (r: BigNat)
    ensures
        r@ == a@ / pow2(n as nat),
{
    let x = BigUint::from_bytes_le(&a.bytes);
    BigNat { bytes: (x >> n).to_bytes_le() }
}

/// `BigUint::bits`: the fewest bits that can express the number.
#[verifier::external_body]
pub(crate) fn big_bits(a: &BigNat) -> (r: u64)
    ensures
        r == bit_length(a@),
{
    BigUint::from_bytes_le(&a.bytes).bits()
}

/// `RandomBits` drawn from the thread's generator: a number of at most
/// `bits` bits, whatever the generator gives.
#[verifier::external_body]
pub(crate) fn random_bits(bits: u64) -> (r: BigNat)
    requires
        bits <= 0xffff_ffff,
    ensures
        r@ < pow2(bits as nat),
{
    let x: BigUint = rand::thread_rng().sample(RandomBits::new(bits));
    BigNat { bytes: x.to_bytes_le() }
}

/// The bytes of a positive number, highest first, with no leading zero.
pub open spec fn be_digits(n: nat) -> Seq<u8>
    decreases n,
{
    if n == 0 {
        Seq::empty()
    } else {
        be_digits(n / 256).push((n % 256) as u8)
    }
}

/// The bytes of a number, highest first, as `BigUint` writes them: no leading
/// zero, and one zero byte for zero.
pub open spec fn be_bytes(n: nat) -> Seq<u8> {
    if n == 0 {
        seq![0u8]
    } else {
        be_digits(n)
    }
}

/// `BigUint::to_bytes_be`: the bytes of the number, highest first.
#[verifier::external_body]
pub(crate) fn big_to_bytes_be(a: &BigNat) -> (r: Vec<u8>)
    ensures
        r@ == be_bytes(a@),
{
    BigUint::from_bytes_le(&a.bytes).to_bytes_be()
}

/// `BigUint` equality: whether the two numbers are the same.
#[verifier::external_body]
pub(crate) fn big_eq(a: &BigNat, b: &BigNat) -> (r: bool)
    ensures
        r == (a@ == b@),
{
    BigUint::from_bytes_le(&a.bytes) == BigUint::from_bytes_le(&b.bytes)
}

/// The number that a text spells in decimal, if it is one or more digits
/// and nothing else.
pub fn str_to_big_uint(value: &str) -> (number: Option<BigNat>)
    ensures
        number is Some <==> crate::decimal::is_decimal(value.spec_bytes()),
        number matches Some(n) ==> n@ == crate::decimal::decimal_value(value.spec_bytes()),
{
    crate::decimal::parse_decimal(value.as_bytes())
}

/// A number of at most `bits` bits, drawn at random.
pub fn random_big_uint(bits: u64) -> (number: BigNat)
    requires
        bits <= 0xffff_ffff,
    ensures
        number@ < pow2(bits as nat),
{
    random_bits(bits)
}

impl BigNat {
    /// The number zero.
    pub fn zero() -> (r: Self)
        ensures
            r@ == 0,
    {
        BigNat { bytes: Vec::new() }
    }

    /// The number that little-endian bytes spell.
    pub fn from_bytes_le(bytes: &[u8]) -> (r: Self)
        ensures
            r@ == le_value(bytes@),
    {
        let mut copy: Vec<u8> = Vec::new();
        let mut i: usize = 0;
        while i < bytes.len()
            invariant
                i <= bytes.len(),
                copy.len() == i,
                forall|k: int| 0 <= k < i ==> copy@[k] == bytes@[k],
            decreases bytes.len() - i,
        {
            copy.push(bytes[i]);
            i = i + 1;
        }
        proof {
            assert(copy@ =~= bytes@);
        }
        BigNat { bytes: copy }
    }

    /// The number that big-endian bytes spell.
    pub fn from_bytes_be(bytes: &[u8]) -> (r: Self)
        ensures
            r@ == be_value(bytes@),
    {
        let n = bytes.len();
        let mut reversed: Vec<u8> = Vec::new();
        let mut i: usize = 0;
        while i < n
            invariant
                i <= n,
                n == bytes.len(),
                reversed.len() == i,
                forall|k: int| 0 <= k < i ==> reversed@[k] == bytes@[n - 1 - k],
            decreases n - i,
        {
            reversed.push(bytes[n - 1 - i]);
            i = i + 1;
        }
        proof {
            assert(reversed@ =~= bytes@.reverse());
            lemma_be_value_reverse(bytes@);
        }
        BigNat { bytes: reversed }
    }

    /// The bytes of the number, highest first, with no leading zero but for
    /// zero itself, which is one zero byte.
    pub fn to_bytes_be(&self) -> (bytes: Vec<u8>)
        ensures
            bytes@ == be_bytes(self@),
    {
        big_to_bytes_be(self)
    }

    /// The fewest bits that can express the number.
    pub fn bits(&self) -> (n: u64)
        ensures
            n == bit_length(self@),
    {
        big_bits(self)
    }

    /// Whether two numbers are the same.
    pub fn equals(&self, other: &BigNat) -> (same: bool)
        ensures
            same == (self@ == other@),
    {
        big_eq(self, other)
    }

    /// The number held by a machine word.
    pub fn from_u64(x: u64) -> (r: Self)
        ensures
            r@ == x,
    {
        let mut bytes: Vec<u8> = Vec::new();
        let mut rest: u64 = x;
        let mut i: usize = 0;
        proof {
            vstd::arithmetic::power::lemma_pow0(256);
        }
        while i < 8
            invariant
                i <= 8,
                bytes.len() == i,
                x == le_value(bytes@) + rest * pow(256, i as nat),
                rest * pow(256, i as nat) <= u64::MAX,
            decreases 8 - i,
        {
            let low: u8 = (rest % 256) as u8;
            proof {
                lemma_le_value_push(bytes@, low);
                vstd::arithmetic::power::lemma_pow_adds(256, i as nat, 1);
                vstd::arithmetic::power::lemma_pow1(256);
                vstd::arithmetic::power::lemma_pow_positive(256, i as nat);
                let p = pow(256, i as nat);
                assert(rest == (rest / 256) * 256 + rest % 256);
                assert(rest * p == (rest / 256) * (256 * p) + (rest % 256) * p) by (nonlinear_arith)
                    requires
                        rest == (rest / 256) * 256 + rest % 256,
                ;
                assert(pow(256, (i + 1) as nat) == p * 256);
                assert((rest / 256) * (p * 256) >= 0) by (nonlinear_arith)
                    requires
                        rest / 256 >= 0,
                        p > 0,
                ;
                assert((rest % 256) * p >= 0) by (nonlinear_arith)
                    requires
                        rest % 256 >= 0,
                        p > 0,
                ;
            }
            bytes.push(low);
            rest = rest / 256;
            i = i + 1;
        }
        proof {
            vstd::arithmetic::power::lemma_pow_positive(256, 8);
            assert(pow(256, 8) == 0x1_0000_0000_0000_0000int) by {
                reveal_with_fuel(pow, 9);
            }
            assert(rest == 0) by (nonlinear_arith)
                requires
                    rest * 0x1_0000_0000_0000_0000int <= u64::MAX,
                    rest >= 0,
            ;
        }
        BigNat { bytes }
    }
}

/// The bytes as a limb sequence in base 256.
pub open spec fn byte_limbs(s: Seq<u8>) -> Seq<nat> {
    Seq::new(s.len(), |i: int| s[i] as nat)
}

/// Little-endian bytes are limbs in base 256.
pub proof fn lemma_le_value_as_limbs(s: Seq<u8>)
    ensures
        le_value(s) == limbs_value(byte_limbs(s), 256),
    decreases s.len(),
{
    if s.len() > 0 {
        lemma_le_value_as_limbs(s.skip(1));
        assert(byte_limbs(s).skip(1) =~= byte_limbs(s.skip(1)));
    }
}

/// Appending a byte adds it at the next power of 256.
pub proof fn lemma_le_value_push(s: Seq<u8>, b: u8)
    ensures
        le_value(s.push(b)) == le_value(s) + b * pow(256, s.len()),
{
    lemma_le_value_as_limbs(s);
    lemma_le_value_as_limbs(s.push(b));
    assert(byte_limbs(s.push(b)) =~= byte_limbs(s).push(b as nat));
    lemma_value_push(byte_limbs(s), b as nat, 256);
}

/// Bytes spell a number below 256 to their count.
pub proof fn lemma_le_value_bound(s: Seq<u8>)
    ensures
        le_value(s) < pow(256, s.len()),
{
    lemma_le_value_as_limbs(s);
    lemma_value_bound(byte_limbs(s), 256);
}

/// The value of a concatenation: the second part counts from the power of
/// 256 at which it starts.
pub proof fn lemma_le_value_concat(a: Seq<u8>, b: Seq<u8>)
    ensures
        le_value(a + b) == le_value(a) + pow(256, a.len()) * le_value(b),
{
    let s = a + b;
    lemma_le_value_as_limbs(s);
    lemma_le_value_as_limbs(a);
    lemma_le_value_as_limbs(b);
    lemma_value_split(byte_limbs(s), a.len(), 256);
    assert(byte_limbs(s).take(a.len() as int) =~= byte_limbs(a));
    assert(byte_limbs(s).skip(a.len() as int) =~= byte_limbs(b));
}

/// Zero bytes spell zero.
pub proof fn lemma_le_value_zeros(s: Seq<u8>)
    requires
        forall|i: int| 0 <= i < s.len() ==> s[i] == 0,
    ensures
        le_value(s) == 0,
{
    lemma_le_value_as_limbs(s);
    lemma_value_zeros(byte_limbs(s), 256);
}

/// Two byte strings of one length that spell the same number are the same.
pub proof fn lemma_le_value_injective(a: Seq<u8>, b: Seq<u8>)
    requires
        a.len() == b.len(),
        le_value(a) == le_value(b),
    ensures
        a == b,
    decreases a.len(),
{
    if a.len() > 0 {
        let x = le_value(a.skip(1));
        let y = le_value(b.skip(1));
        assert(a[0] + 256 * x == b[0] + 256 * y);
        assert(x == y && a[0] == b[0]) by (nonlinear_arith)
            requires
                a[0] + 256 * x == b[0] + 256 * y,
                a[0] < 256,
                b[0] < 256,
        ;
        lemma_le_value_injective(a.skip(1), b.skip(1));
        assert(a =~= seq![a[0]] + a.skip(1));
        assert(b =~= seq![b[0]] + b.skip(1));
    }
    assert(a =~= b);
}

/// The first `n` bytes, with zeros where `s` is shorter than `n`.
pub open spec fn fit_bytes(s: Seq<u8>, n: nat) -> Seq<u8> {
    Seq::new(n, |i: int| if i < s.len() { s[i] } else { 0u8 })
}

/// Cutting or padding bytes to `n` places keeps a number below 256 to the
/// `n`.
pub proof fn lemma_fit_bytes(s: Seq<u8>, n: nat)
    requires
        le_value(s) < pow(256, n),
    ensures
        le_value(fit_bytes(s, n)) == le_value(s),
{
    let f = fit_bytes(s, n);
    if s.len() <= n {
        let zeros = Seq::new((n - s.len()) as nat, |i: int| 0u8);
        assert(f =~= s + zeros);
        lemma_le_value_concat(s, zeros);
        lemma_le_value_zeros(zeros);
        assert(pow(256, s.len()) * 0 == 0);
    } else {
        let hi = s.skip(n as int);
        assert(f =~= s.take(n as int));
        assert(s =~= s.take(n as int) + hi);
        lemma_le_value_concat(s.take(n as int), hi);
        lemma_pow_nat(256, n);
        let p = pow(256, n);
        let h = le_value(hi);
        let lo = le_value(s.take(n as int));
        assert(h == 0) by (nonlinear_arith)
            requires
                lo + p * h < p,
                lo >= 0,
                p > 0,
                h >= 0,
        ;
        assert(p * h == 0) by (nonlinear_arith)
            requires
                h == 0,
        ;
    }
}

/// Big-endian bytes spell what their reverse spells little-endian.
pub proof fn lemma_be_value_reverse(s: Seq<u8>)
    ensures
        be_value(s) == le_value(s.reverse()),
    decreases s.len(),
{
    if s.len() > 0 {
        lemma_be_value_reverse(s.drop_last());
        let r = s.reverse();
        assert(r.skip(1) =~= s.drop_last().reverse());
        assert(r[0] == s.last());
    }
}

/// Bytes that do not start with zero spell a positive number, and are the
/// bytes that the number is written with.
pub proof fn lemma_be_digits_of_value(c: Seq<u8>)
    requires
        c.len() > 0,
        c[0] != 0,
    ensures
        be_value(c) > 0,
        be_digits(be_value(c)) == c,
    decreases c.len(),
{
    let head = c.drop_last();
    if head.len() == 0 {
        assert(be_value(head) == 0);
        assert(c.last() == c[0]);
        let n = be_value(c);
        assert(n == c[0]);
        assert(n / 256 == 0);
        assert(be_digits(n / 256) =~= Seq::<u8>::empty());
        assert(be_digits(n) =~= c);
    } else {
        assert(head[0] == c[0]);
        lemma_be_digits_of_value(head);
        let n = be_value(c);
        assert(n / 256 == be_value(head));
        assert(n % 256 == c.last());
        assert(be_digits(n) =~= c);
    }
}

/// 256 to the 32 is two to the 256.
pub proof fn lemma_pow256_32()
    ensures
        pow(256, 32) == 0x1_0000000000000000_0000000000000000_0000000000000000_0000000000000000int,
        pow(256, 31) == 0x1_00000000000000_0000000000000000_0000000000000000_0000000000000000int,
        pow(256, 8) == 0x1_0000000000000000int,
{
    assert(pow(256, 8) == 0x1_0000000000000000int) by {
        reveal_with_fuel(pow, 9);
    }
    vstd::arithmetic::power::lemma_pow_adds(256, 8, 8);
    vstd::arithmetic::power::lemma_pow_adds(256, 16, 8);
    vstd::arithmetic::power::lemma_pow_adds(256, 24, 8);
    assert(pow(256, 7) == 0x1_00000000000000) by {
        reveal_with_fuel(pow, 8);
    }
    vstd::arithmetic::power::lemma_pow_adds(256, 24, 7);
}

} // verus!
