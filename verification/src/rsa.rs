//! Keys and signatures as the RSA gadget holds them: integers in limbs,
//! known or not yet known.

use crate::big_integer::chip::BigIntChip;
use crate::big_integer::integer::{AssignedInteger, UnassignedInteger};
use crate::big_integer::Fresh;
use crate::bigint::{be_value, lemma_be_value_reverse, lemma_le_value_bound, lemma_pow256_32, BigNat};
use crate::encryptor::grain::fe_views;
use crate::field::{modulus, Fe};
use vstd::prelude::*;

verus! {

/// The number of bytes of the message that the signature gadget takes.
pub const DIGEST_SIZE: usize = 8;

/// The exponent of a public key that is about to enter a circuit.
#[derive(Debug)]
pub enum RSAPubE {
    /// An exponent that the circuit holds as a witness.
    Var(UnassignedInteger),
    /// An exponent that is fixed for the circuit.
    Fix(BigNat),
}

/// The exponent of a public key inside a circuit.
#[derive(Debug)]
pub enum AssignedRSAPubE {
    /// An exponent that the circuit holds as a witness.
    Var(AssignedInteger<Fresh>),
    /// An exponent that is fixed for the circuit.
    Fix(BigNat),
}

/// A public key that is about to enter a circuit.
#[derive(Debug)]
pub struct RSAPublicKey {
    /// The modulus.
    pub n: UnassignedInteger,
    /// The exponent.
    pub e: RSAPubE,
}

impl RSAPublicKey {
    /// The key with the given modulus and exponent.
    pub fn new(n: UnassignedInteger, e: RSAPubE) -> (key: Self)
        ensures
            key.n == n,
            key.e == e,
    {
        RSAPublicKey { n, e }
    }

    /// A key of `num_limbs` limbs whose modulus is not known, with the fixed
    /// exponent `fix_e`.
    pub fn without_witness(num_limbs: usize, fix_e: BigNat) -> (key: Self)
        ensures
            key.n.value is None,
            key.n.num_limbs == num_limbs,
            key.e == RSAPubE::Fix(fix_e),
    {
        RSAPublicKey { n: UnassignedInteger::without_witness(num_limbs), e: RSAPubE::Fix(fix_e) }
    }
}

/// A public key inside a circuit.
#[derive(Debug)]
pub struct AssignedRSAPublicKey {
    /// The modulus.
    pub n: AssignedInteger<Fresh>,
    /// The exponent.
    pub e: AssignedRSAPubE,
}

impl AssignedRSAPublicKey {
    /// The key with the given modulus and exponent.
    pub fn new(n: AssignedInteger<Fresh>, e: AssignedRSAPubE) -> (key: Self)
        ensures
            key.n == n,
            key.e == e,
    {
        AssignedRSAPublicKey { n, e }
    }
}

/// A signature that is about to enter a circuit.
#[derive(Debug)]
pub struct RSASignature {
    pub c: UnassignedInteger,
}

impl RSASignature {
    /// The signature that is the given integer.
    pub fn new(c: UnassignedInteger) -> (signature: Self)
        ensures
            signature.c == c,
    {
        RSASignature { c }
    }

    /// A signature of `num_limbs` limbs that is not known.
    pub fn without_witness(num_limbs: usize) -> (signature: Self)
        ensures
            signature.c.value is None,
            signature.c.num_limbs == num_limbs,
    {
        RSASignature { c: UnassignedInteger::without_witness(num_limbs) }
    }
}

/// A signature inside a circuit.
#[derive(Debug)]
pub struct AssignedRSASignature {
    pub c: AssignedInteger<Fresh>,
}

impl AssignedRSASignature {
    /// The signature that is the given integer.
    pub fn new(c: AssignedInteger<Fresh>) -> (signature: Self)
        ensures
            signature.c == c,
    {
        AssignedRSASignature { c }
    }
}

/// The parameters of the RSA gadget: the bits of its integers and the bits
/// of a limb of its exponent.
#[derive(Clone, Copy, Debug)]
pub struct RSAChip {
    pub bits_len: usize,
    pub exp_limb_bits: usize,
}

impl RSAChip {
    /// The number of bits of a limb.
    pub const LIMB_WIDTH: usize = 64;

    /// The big-integer gadgets that the RSA gadget computes with.
    pub fn bigint_chip(&self) -> (chip: BigIntChip)
        requires
            self.bits_len % 64 == 0,
        ensures
            chip.limb_width == 64,
            chip.num_limbs == self.bits_len / 64,
    {
        BigIntChip::new(64, self.bits_len)
    }
}

/// The gadget that checks a signature over a message.
#[derive(Clone, Copy, Debug)]
pub struct RSASignatureVerifier {
    pub rsa_chip: RSAChip,
}

impl RSASignatureVerifier {
    /// The verifier over the given gadget.
    pub fn new(rsa_chip: RSAChip) -> (verifier: Self)
        ensures
            verifier.rsa_chip == rsa_chip,
    {
        RSASignatureVerifier { rsa_chip }
    }

    /// The integer that a message of [`DIGEST_SIZE`] bytes enters the
    /// signature check as: one limb, whose bytes are the message read
    /// highest first.
    pub fn message_integer(&self, msg: &[u8]) -> (hashed_msg: AssignedInteger<Fresh>)
        requires
            msg@.len() == DIGEST_SIZE,
        ensures
            hashed_msg@ == seq![be_value(msg@)],
    {
        let number = BigNat::from_bytes_be(msg);
        proof {
            lemma_be_value_reverse(msg@);
            lemma_le_value_bound(msg@.reverse());
            lemma_pow256_32();
            vstd::arithmetic::div_mod::lemma_small_mod(be_value(msg@), modulus());
        }
        let limb = Fe::from_big(&number);
        let limbs: [Fe; 1] = [limb];
        proof {
            assert(fe_views(limbs@) =~= seq![be_value(msg@)]);
        }
        AssignedInteger::from_values(limbs.as_slice())
    }
}

} // verus!
