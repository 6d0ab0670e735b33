//! The sigma protocol: a proof that one exponent `s` links `o = g^s` and
//! `k_two = y_two^s`, made non-interactive by drawing the challenge from the
//! hash of the two commitments.

use crate::big_integer::carry::digits;
use crate::big_integer::{decompose_big, fits_in_limbs};
use crate::bigint::{big_add, big_modpow, big_mul, BigNat};
use crate::encryptor::chip::{FULL_ROUND, PARTIAL_ROUND};
use crate::encryptor::encryption::cipher::cipher_spec;
use crate::encryptor::encryptor::{initial_hash_state, squeezed, Encryptor};
use crate::encryptor::grain::fe_views;
use crate::encryptor::hash::{BITS_LEN, LIMB_COUNT, LIMB_WIDTH};
use crate::modular::{lemma_pow_nonnegative, mul_mod};
use crate::time_lock_puzzle::{
    generate_time_lock_puzzle_param, puzzle_target, standard_generator, standard_modulus,
};
use vstd::arithmetic::div_mod::{lemma_mod_bound, lemma_mul_mod_noop_general};
use vstd::arithmetic::power::{lemma_pow_adds, lemma_pow_mod_noop, lemma_pow_multiplies, pow};
use vstd::arithmetic::power2::pow2;
use vstd::prelude::*;

verus! {

/// The statement of the protocol, as numbers.
pub struct SigmaStatement {
    pub r1: nat,
    pub r2: nat,
    pub z: nat,
    pub o: nat,
    pub k_two: nat,
}

/// The parameters of the protocol, as numbers.
pub struct SigmaParam {
    pub n: nat,
    pub g: nat,
    pub y_two: nat,
}

/// The statement of the protocol: the two commitments, the response, and the
/// two powers that the response links.
#[derive(Debug, Clone)]
pub struct SigmaProtocolPublicInput {
    pub r1: BigNat,
    pub r2: BigNat,
    pub z: BigNat,
    pub o: BigNat,
    pub k_two: BigNat,
}

/// The parameters of the protocol: the modulus and the two bases.
#[derive(Debug, Clone)]
pub struct SigmaProtocolParam {
    pub n: BigNat,
    pub g: BigNat,
    pub y_two: BigNat,
}

impl View for SigmaProtocolPublicInput {
    type V = SigmaStatement;

    open spec fn view(&self) -> SigmaStatement {
        SigmaStatement {
            r1: self.r1@,
            r2: self.r2@,
            z: self.z@,
            o: self.o@,
            k_two: self.k_two@,
        }
    }
}

impl View for SigmaProtocolParam {
    type V = SigmaParam;

    open spec fn view(&self) -> SigmaParam {
        SigmaParam { n: self.n@, g: self.g@, y_two: self.y_two@ }
    }
}

/// A power reduced by the modulus.
pub open spec fn power_mod(b: nat, e: nat, n: nat) -> nat {
    (pow(b as int, e) % (n as int)) as nat
}

/// What the hash is fed for the challenge: the limbs of the first
/// commitment, then those of the second.
pub open spec fn challenge_inputs(r1: nat, r2: nat) -> Seq<nat> {
    digits(r1, LIMB_COUNT as nat, LIMB_WIDTH as nat) + digits(
        r2,
        LIMB_COUNT as nat,
        LIMB_WIDTH as nat,
    )
}

/// The challenge: the first rate word that the hashing sponge exposes for
/// the two commitments.
pub open spec fn challenge(r1: nat, r2: nat) -> nat {
    squeezed(cipher_spec(), initial_hash_state(), challenge_inputs(r1, r2))[1]
}

/// The statement that the prover makes for the blinding exponent `r` and
/// the secret exponent `s`. The response `r + s * c` is not reduced.
pub open spec fn sigma_generated(p: SigmaParam, r: nat, s: nat) -> SigmaStatement {
    let r1 = power_mod(p.g, r, p.n);
    let r2 = power_mod(p.y_two, r, p.n);
    SigmaStatement {
        r1,
        r2,
        z: r + s * challenge(r1, r2),
        o: power_mod(p.g, s, p.n),
        k_two: power_mod(p.y_two, s, p.n),
    }
}

/// Whether the verifier accepts a statement: both commitments fit the hash,
/// `g^z == r1 * o^c` and `y_two^z == r2 * k_two^c`, all reduced by `n`.
pub open spec fn sigma_accepts(x: SigmaStatement, p: SigmaParam) -> bool {
    let c = challenge(x.r1, x.r2);
    &&& x.r1 < pow2(BITS_LEN as nat)
    &&& x.r2 < pow2(BITS_LEN as nat)
    &&& power_mod(p.g, x.z, p.n) == (x.r1 * power_mod(x.o, c, p.n)) % p.n
    &&& power_mod(p.y_two, x.z, p.n) == (x.r2 * power_mod(x.k_two, c, p.n)) % p.n
}

/// The identity behind the protocol: a base to the power `r + s * c` is its
/// `r`-th power times the `c`-th power of its `s`-th power, reduced or not
/// on the way.
pub proof fn lemma_response_opens(b: nat, r: nat, s: nat, c: nat, n: nat)
    requires
        n > 0,
    ensures
        power_mod(b, r + s * c, n) == (power_mod(b, r, n) * power_mod(power_mod(b, s, n), c, n))
            % n,
{
    let m = n as int;
    let br = pow(b as int, r);
    let bs = pow(b as int, s);
    lemma_pow_nonnegative(b, r);
    lemma_pow_nonnegative(b, s);
    lemma_pow_nonnegative(b, r + s * c);
    lemma_pow_adds(b as int, r, s * c);
    lemma_pow_multiplies(b as int, s, c);
    let bsc = pow(bs, c);
    assert(pow(b as int, r + s * c) == br * bsc);
    lemma_pow_mod_noop(bs, c, m);
    lemma_mod_bound(bs, m);
    lemma_pow_nonnegative((bs % m) as nat, c);
    lemma_mod_bound(pow(bs % m, c), m);
    lemma_mod_bound(br, m);
    lemma_mul_mod_noop_general(br, bsc, m);
    lemma_mod_bound(br * bsc, m);
}

/// Completeness: for every blinding exponent and every secret exponent, the
/// verifier accepts the statement that the prover makes, over any modulus
/// that the hash can take.
pub proof fn lemma_sigma_complete(p: SigmaParam, r: nat, s: nat)
    requires
        0 < p.n <= pow2(BITS_LEN as nat),
    ensures
        sigma_accepts(sigma_generated(p, r, s), p),
{
    let x = sigma_generated(p, r, s);
    let c = challenge(x.r1, x.r2);
    lemma_mod_bound(pow(p.g as int, r), p.n as int);
    lemma_mod_bound(pow(p.y_two as int, r), p.n as int);
    lemma_response_opens(p.g, r, s, c, p.n);
    lemma_response_opens(p.y_two, r, s, c, p.n);
}

/// The parameters of the standard puzzle of depth `t`.
pub fn setup(t: u32) -> (param: SigmaProtocolParam)
    ensures
        param@.g == standard_generator(),
        param@.n == standard_modulus(),
        param@.y_two == puzzle_target(standard_generator(), standard_modulus(), t as nat),
{
    let puzzle = generate_time_lock_puzzle_param(t);
    SigmaProtocolParam { n: puzzle.n, g: puzzle.g, y_two: puzzle.y_two }
}

/// The prover's statement for the blinding exponent `r` and the secret
/// exponent `s`.
pub fn generate_sigma_protocol_public_input(
    sigma_protocol_param: &SigmaProtocolParam,
    r: &BigNat,
    s: &BigNat,
) -> (statement: SigmaProtocolPublicInput)
    requires
        0 < sigma_protocol_param@.n <= pow2(BITS_LEN as nat),
    ensures
        statement@ == sigma_generated(sigma_protocol_param@, r@, s@),
{
    let g = &sigma_protocol_param.g;
    let n = &sigma_protocol_param.n;
    let y_two = &sigma_protocol_param.y_two;
    proof {
        lemma_pow_nonnegative(g@, r@);
        lemma_pow_nonnegative(y_two@, r@);
        lemma_pow_nonnegative(g@, s@);
        lemma_pow_nonnegative(y_two@, s@);
        lemma_mod_bound(pow(g@ as int, r@), n@ as int);
        lemma_mod_bound(pow(y_two@ as int, r@), n@ as int);
    }
    let r1 = big_modpow(g, r, n);
    let r2 = big_modpow(y_two, r, n);
    let c = get_c(&r1, &r2);
    let z = big_add(r, &big_mul(s, &c));
    let o = big_modpow(g, s, n);
    let k_two = big_modpow(y_two, s, n);
    SigmaProtocolPublicInput { r1, r2, z, o, k_two }
}

/// Checks a statement against the parameters.
pub fn verify(
    sigma_protocol_public_input: &SigmaProtocolPublicInput,
    time_lock_puzzle_param: &SigmaProtocolParam,
) -> (valid: bool)
    requires
        time_lock_puzzle_param@.n > 0,
    ensures
        valid == sigma_accepts(sigma_protocol_public_input@, time_lock_puzzle_param@),
{
    let x = sigma_protocol_public_input;
    let n = &time_lock_puzzle_param.n;
    let g = &time_lock_puzzle_param.g;
    let y_two = &time_lock_puzzle_param.y_two;
    proof {
        assert((LIMB_WIDTH as nat) * (LIMB_COUNT as nat) == BITS_LEN as nat);
    }
    if !fits_in_limbs(&x.r1, LIMB_COUNT, LIMB_WIDTH) {
        return false;
    }
    if !fits_in_limbs(&x.r2, LIMB_COUNT, LIMB_WIDTH) {
        return false;
    }
    let c = get_c(&x.r1, &x.r2);
    proof {
        lemma_pow_nonnegative(g@, x.z@);
        lemma_pow_nonnegative(y_two@, x.z@);
        lemma_pow_nonnegative(x.o@, c@);
        lemma_pow_nonnegative(x.k_two@, c@);
        lemma_mod_bound(pow(x.o@ as int, c@), n@ as int);
        lemma_mod_bound(pow(x.k_two@ as int, c@), n@ as int);
    }
    let left_side = big_modpow(g, &x.z, n);
    let right_side = mul_mod(&x.r1, &big_modpow(&x.o, &c, n), n);
    if !left_side.equals(&right_side) {
        return false;
    }
    let left_side = big_modpow(y_two, &x.z, n);
    let right_side = mul_mod(&x.r2, &big_modpow(&x.k_two, &c, n), n);
    left_side.equals(&right_side)
}

/// The challenge for two commitments of at most [`BITS_LEN`] bits each.
pub fn get_c(r1: &BigNat, r2: &BigNat) -> (c: BigNat)
    requires
        r1@ < pow2(BITS_LEN as nat),
        r2@ < pow2(BITS_LEN as nat),
    ensures
        c@ == challenge(r1@, r2@),
{
    proof {
        assert((LIMB_WIDTH as nat) * (LIMB_COUNT as nat) == BITS_LEN as nat);
    }
    let mut hasher = Encryptor::new_hash(FULL_ROUND, PARTIAL_ROUND);
    let r1_limbs = decompose_big(r1, LIMB_COUNT, LIMB_WIDTH);
    hasher.update(r1_limbs.as_slice());
    let r2_limbs = decompose_big(r2, LIMB_COUNT, LIMB_WIDTH);
    hasher.update(r2_limbs.as_slice());
    proof {
        assert(Seq::<nat>::empty() + fe_views(r1_limbs@) + fe_views(r2_limbs@)
            =~= challenge_inputs(r1@, r2@));
    }
    let c_seq = hasher.squeeze(1);
    proof {
        assert(c_seq@[1]@ == fe_views(c_seq@)[1]);
    }
    c_seq[1].to_big()
}

} // verus!
