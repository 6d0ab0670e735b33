//! The scalar field of the BN254 curve.
//!
//! A field element is held as its canonical little-endian bytes. The field
//! arithmetic is done by `halo2curves`.

use crate::bigint::{
    big_add, big_rem, fit_bytes, le_value, lemma_fit_bytes, lemma_le_value_injective, lemma_le_value_zeros, lemma_pow256_32, BigNat,
};
use halo2curves::bn256::Fr;
use halo2curves::ff::Field;
use vstd::arithmetic::div_mod::lemma_small_mod;

use vstd::prelude::*;

verus! {

/// The order of the field: a prime of 254 bits.
pub open spec fn modulus() -> nat {
    0x30644e72e131a029b85045b68181585d2833e84879b9709143e1f593f0000001nat
}

/// The sum of two field elements.
pub open spec fn fe_add(a: nat, b: nat) -> nat {
    (a + b) % modulus()
}

/// The difference of two field elements.
pub open spec fn fe_sub(a: nat, b: nat) -> nat {
    ((a + modulus() - b) % (modulus() as int)) as nat
}

/// The product of two field elements.
pub open spec fn fe_mul(a: nat, b: nat) -> nat {
    (a * b) % modulus()
}

/// Whether `e` is the inverse of `a` in the field: a field element whose
/// product with `a` is one.
pub open spec fn is_inverse(a: nat, e: nat) -> bool {
    e < modulus() && fe_mul(a, e) == 1
}

/// The inverse of a field element that has one.
pub open spec fn field_inverse(a: nat) -> nat {
    choose|e: nat| is_inverse(a, e)
}

/// A field element has at most one inverse.
pub proof fn lemma_inverse_unique(a: nat, e: nat, f: nat)
    requires
        is_inverse(a, e),
        is_inverse(a, f),
    ensures
        e == f,
{
    let p = modulus() as int;
    vstd::arithmetic::div_mod::lemma_mul_mod_noop_right(f as int, (a * e) as int, p);
    vstd::arithmetic::div_mod::lemma_mul_mod_noop_right(e as int, (a * f) as int, p);
    lemma_small_mod(e, modulus());
    lemma_small_mod(f, modulus());
    assert(f * (a * e) == e * (a * f)) by (nonlinear_arith);
    assert(f * 1 == f && e * 1 == e);
}

/// The inverse of a field element, and zero for zero.
pub open spec fn inverse_or_zero(a: nat) -> nat {
    if a == 0 {
        0
    } else {
        field_inverse(a)
    }
}

/// Taking away what was added gives the element back.
pub proof fn lemma_fe_sub_add(s: nat, m: nat)
    requires
        m < modulus(),
    ensures
        fe_sub(fe_add(s, m), s) == m,
{
    let p = modulus() as int;
    let x = (s + m) as int;
    let a = x % p;
    vstd::arithmetic::div_mod::lemma_fundamental_div_mod(x, p);
    let q = x / p;
    assert(a + p - s == p * (1 - q) + m) by (nonlinear_arith)
        requires
            x == p * q + a,
            x == s + m,
    ;
    vstd::arithmetic::div_mod::lemma_mod_multiples_vanish(1 - q, m as int, p);
    lemma_small_mod(m, modulus());
}

/// An element of the field, as 32 little-endian bytes that spell a number
/// below the order.
#[derive(Clone, Copy, Debug)]
pub struct Fe {
    pub(crate) bytes: [u8; 32],
}

impl View for Fe {
    type V = nat;

    closed spec fn view(&self) -> nat {
        le_value(self.bytes@)
    }
}

/// `Fr` addition of the elements that the bytes spell: their sum in the
/// field.
#[verifier::external_body]
fn fr_add(a: &Fe, b: &Fe) -> (r: Fe)
    ensures
        r@ == fe_add(a@, b@),
{
    let x = Fr::from_bytes(&a.bytes).unwrap();
    let y = Fr::from_bytes(&b.bytes).unwrap();
    Fe { bytes: (x + y).to_bytes() }
}

/// `Fr` subtraction of the elements that the bytes spell: their difference
/// in the field.
#[verifier::external_body]
fn fr_sub(a: &Fe, b: &Fe) -> (r: Fe)
    ensures
        r@ == fe_sub(a@, b@),
{
    let x = Fr::from_bytes(&a.bytes).unwrap();
    let y = Fr::from_bytes(&b.bytes).unwrap();
    Fe { bytes: (x - y).to_bytes() }
}

/// `Fr` multiplication of the elements that the bytes spell: their product
/// in the field.
#[verifier::external_body]
fn fr_mul(a: &Fe, b: &Fe) -> (r: Fe)
    ensures
        r@ == fe_mul(a@, b@),
{
    let x = Fr::from_bytes(&a.bytes).unwrap();
    let y = Fr::from_bytes(&b.bytes).unwrap();
    Fe { bytes: (x * y).to_bytes() }
}

/// `Fr::from_bytes`, which accepts little-endian bytes exactly when they
/// spell a number below the order, and `Fr::to_bytes`, which gives the
/// canonical bytes back.
#[verifier::external_body]
fn fr_from_bytes(bytes: &[u8; 32]) -> (r: Option<Fe>)
    ensures
        r is Some <==> le_value(bytes@) < modulus(),
        r matches Some(e) ==> e.bytes@ == bytes@,
{
    let parsed: Option<Fr> = Fr::from_bytes(bytes).into();
    match parsed {
        Some(x) => Some(Fe { bytes: x.to_bytes() }),
        None => None,
    }
}

/// `Fr::invert`, which fails on zero alone: the element whose product with
/// the given one is one.
#[verifier::external_body]
fn fr_invert(a: &Fe) -> (r: Option<Fe>)
    ensures
        r is Some <==> a@ != 0,
        r matches Some(e) ==> fe_mul(a@, e@) == 1,
{
    let x = Fr::from_bytes(&a.bytes).unwrap();
    let inverse: Option<Fr> = x.invert().into();
    match inverse {
        Some(y) => Some(Fe { bytes: y.to_bytes() }),
        None => None,
    }
}

/// The first 32 bytes, with zeros where there are fewer.
fn fit32(bytes: &Vec<u8>) -> (fitted: [u8; 32])
    ensures
        fitted@ == fit_bytes(bytes@, 32),
{
    let mut fitted: [u8; 32] = [0u8; 32];
    let mut i: usize = 0;
    while i < 32
        invariant
            i <= 32,
            forall|k: int| 0 <= k < i ==> fitted@[k] == fit_bytes(bytes@, 32)[k],
        decreases 32 - i,
    {
        if i < bytes.len() {
            fitted[i] = bytes[i];
        } else {
            fitted[i] = 0;
        }
        i = i + 1;
    }
    proof {
        assert(fitted@ =~= fit_bytes(bytes@, 32));
    }
    fitted
}

impl Fe {
    #[verifier::type_invariant]
    spec fn canonical(self) -> bool {
        le_value(self.bytes@) < modulus()
    }

    /// Every element is below the order.
    pub fn is_reduced(&self) -> (r: bool)
        ensures
            r,
            self@ < modulus(),
    {
        proof {
            use_type_invariant(self);
        }
        true
    }

    /// The element zero.
    pub fn zero() -> (r: Self)
        ensures
            r@ == 0,
    {
        let bytes: [u8; 32] = [0u8; 32];
        proof {
            lemma_le_value_zeros(bytes@);
        }
        Fe { bytes }
    }

    /// The element that a machine word spells.
    pub fn from_u64(x: u64) -> (r: Self)
        ensures
            r@ == x,
    {
        let number = BigNat::from_u64(x);
        let bytes = fit32(&number.bytes);
        proof {
            lemma_pow256_32();
            lemma_fit_bytes(number.bytes@, 32);
        }
        Fe { bytes }
    }

    /// The element one.
    pub fn one() -> (r: Self)
        ensures
            r@ == 1,
    {
        Fe::from_u64(1)
    }

    /// The element that 32 little-endian bytes spell, if they spell a number
    /// below the order.
    pub fn from_bytes(bytes: &[u8; 32]) -> (r: Option<Self>)
        ensures
            r is Some <==> le_value(bytes@) < modulus(),
            r matches Some(e) ==> e@ == le_value(bytes@),
    {
        fr_from_bytes(bytes)
    }

    /// The canonical little-endian bytes of the element.
    pub fn to_bytes(&self) -> (r: [u8; 32])
        ensures
            le_value(r@) == self@,
            self@ < modulus(),
    {
        proof {
            use_type_invariant(self);
        }
        self.bytes
    }

    /// The sum of two elements.
    pub fn add(&self, other: &Fe) -> (r: Fe)
        ensures
            r@ == fe_add(self@, other@),
    {
        fr_add(self, other)
    }

    /// The difference of two elements.
    pub fn sub(&self, other: &Fe) -> (r: Fe)
        ensures
            r@ == fe_sub(self@, other@),
    {
        fr_sub(self, other)
    }

    /// The product of two elements.
    pub fn mul(&self, other: &Fe) -> (r: Fe)
        ensures
            r@ == fe_mul(self@, other@),
    {
        fr_mul(self, other)
    }

    /// The inverse of the element, and zero for zero.
    pub fn invert_or_zero(&self) -> (r: Fe)
        ensures
            r@ == inverse_or_zero(self@),
            self@ != 0 ==> fe_mul(self@, r@) == 1,
    {
        match fr_invert(self) {
            Some(e) => {
                proof {
                    use_type_invariant(&e);
                    assert(is_inverse(self@, e@));
                    lemma_inverse_unique(self@, e@, field_inverse(self@));
                }
                e
            },
            None => Fe::zero(),
        }
    }

    /// Whether two elements are the same.
    pub fn equals(&self, other: &Fe) -> (r: bool)
        ensures
            r == (self@ == other@),
    {
        let mut same = true;
        let mut i: usize = 0;
        while i < 32
            invariant
                i <= 32,
                same == (forall|k: int| 0 <= k < i ==> self.bytes@[k] == other.bytes@[k]),
            decreases 32 - i,
        {
            if self.bytes[i] != other.bytes[i] {
                same = false;
            }
            i = i + 1;
        }
        proof {
            if same {
                assert(self.bytes@ =~= other.bytes@);
            } else if self@ == other@ {
                lemma_le_value_injective(self.bytes@, other.bytes@);
            }
        }
        same
    }

    /// The element as a big integer.
    pub fn to_big(&self) -> (r: BigNat)
        ensures
            r@ == self@,
    {
        let mut bytes: Vec<u8> = Vec::new();
        let mut i: usize = 0;
        while i < 32
            invariant
                i <= 32,
                bytes.len() == i,
                forall|k: int| 0 <= k < i ==> bytes@[k] == self.bytes@[k],
            decreases 32 - i,
        {
            bytes.push(self.bytes[i]);
            i = i + 1;
        }
        proof {
            assert(bytes@ =~= self.bytes@);
        }
        BigNat { bytes }
    }

    /// The order of the field as a big integer.
    pub fn modulus_big() -> (r: BigNat)
        ensures
            r@ == modulus(),
    {
        let last = Fe::zero().sub(&Fe::one());
        proof {
            lemma_small_mod((modulus() - 1) as nat, modulus());
        }
        big_add(&last.to_big(), &BigNat::from_u64(1))
    }

    /// The big integer reduced into the field.
    pub fn from_big(value: &BigNat) -> (r: Fe)
        ensures
            r@ == value@ % modulus(),
    {
        let reduced = big_rem(value, &Fe::modulus_big());
        let bytes = fit32(&reduced.bytes);
        proof {
            lemma_pow256_32();
            lemma_fit_bytes(reduced.bytes@, 32);
        }
        Fe { bytes }
    }
}

} // verus!
