//! Modular exponentiation on big integers: square-and-multiply, and the
//! straight-line repeated squaring that a time-lock puzzle is built from.

use crate::bigint::{big_div, big_eq, big_mul, big_rem, big_sub, BigNat};
use vstd::arithmetic::div_mod::{
    lemma_mul_mod_noop_general, lemma_small_mod,
};

use vstd::arithmetic::power::{
    lemma_pow0, lemma_pow1, lemma_pow_adds, pow,
};
use vstd::arithmetic::power2::{lemma_pow2, lemma_pow2_unfold, pow2};
use vstd::prelude::*;

verus! {

/// What square-and-multiply returns: one for a zero exponent, whatever the
/// modulus, and otherwise the power reduced by the modulus.
pub open spec fn pow_mod(a: nat, b: nat, n: nat) -> nat {
    if b == 0 {
        1
    } else {
        (pow(a as int, b) % (n as int)) as nat
    }
}

/// A nonnegative base has nonnegative powers.
pub proof fn lemma_pow_nonnegative(a: nat, e: nat)
    ensures
        pow(a as int, e) >= 0,
    decreases e,
{
    if e == 0 {
        lemma_pow0(a as int);
    } else {
        lemma_pow_nonnegative(a, (e - 1) as nat);
        lemma_pow_adds(a as int, 1, (e - 1) as nat);
        lemma_pow1(a as int);
        assert(a * pow(a as int, (e - 1) as nat) >= 0) by (nonlinear_arith)
            requires
                a >= 0,
                pow(a as int, (e - 1) as nat) >= 0,
        ;
    }
}

/// The product of two numbers, reduced by `n`.
pub fn mul_mod(a: &BigNat, b: &BigNat, n: &BigNat) -> (r: BigNat)
    requires
        n@ > 0,
    ensures
        r@ == (a@ * b@) % n@,
{
    let product = big_mul(a, b);
    big_rem(&product, n)
}

/// Square-and-multiply: recurse on half the exponent, square the result and
/// multiply by the base once more when the exponent was odd.
pub fn big_pow_mod(a: &BigNat, b: &BigNat, n: &BigNat) -> (r: BigNat)
    requires
        n@ > 0,
    ensures
        r@ == pow_mod(a@, b@, n@),
    decreases b@,
{
    let zero = BigNat::zero();
    if big_eq(b, &zero) {
        return BigNat::from_u64(1);
    }
    let one = BigNat::from_u64(1);
    let two = BigNat::from_u64(2);
    let is_odd = big_eq(&big_rem(b, &two), &one);
    let even = if is_odd {
        big_sub(b, &one)
    } else {
        b.clone()
    };
    let half = big_div(&even, &two);
    let x = big_pow_mod(a, &half, n);
    let x2 = mul_mod(&x, &x, n);
    proof {
        lemma_square_step(a@, half@, n@, x@);
        assert(x2@ == pow(a@ as int, 2 * half@) % (n@ as int));
        if is_odd {
            assert(b@ == 2 * half@ + 1);
            lemma_pow_adds(a@ as int, 1, 2 * half@);
            lemma_pow1(a@ as int);
            lemma_mul_mod_noop_general(a@ as int, pow(a@ as int, 2 * half@), n@ as int);
        } else {
            assert(b@ == 2 * half@);
        }
    }
    if is_odd {
        mul_mod(a, &x2, n)
    } else {
        x2
    }
}

/// Squaring what square-and-multiply gave for `k` gives the power for `2k`.
proof fn lemma_square_step(a: nat, k: nat, n: nat, x: nat)
    requires
        n > 0,
        x == pow_mod(a, k, n),
    ensures
        (x * x) % n == pow(a as int, 2 * k) % (n as int),
{
    let p = pow(a as int, k);
    lemma_pow_adds(a as int, k, k);
    assert(pow(a as int, 2 * k) == p * p);
    if k == 0 {
        lemma_pow0(a as int);
    } else {
        lemma_pow_nonnegative(a, k);
        lemma_mul_mod_noop_general(p, p, n as int);
    }
}

/// For a positive exponent, or a modulus above one, square-and-multiply is the
/// base multiplied by itself `b` times and then reduced by `n`.
pub proof fn lemma_pow_mod_is_repeated_multiplication(a: nat, b: nat, n: nat)
    requires
        n > 0,
        b > 0 || n > 1,
    ensures
        pow_mod(a, b, n) == pow(a as int, b) % (n as int),
        b == 0 ==> pow_mod(a, b, n) == 1,
        n == 1 ==> pow_mod(a, b, n) == 0,
{
    if b == 0 {
        lemma_pow0(a as int);
        lemma_small_mod(1, n);
    } else {
        lemma_pow_nonnegative(a, b);
    }
}

/// `t` squarings in a row, each reduced by `n`, starting from `g` itself.
pub open spec fn repeated_square(g: nat, t: nat, n: nat) -> nat
    decreases t,
{
    if t == 0 {
        g
    } else {
        (repeated_square(g, (t - 1) as nat, n) * repeated_square(g, (t - 1) as nat, n)) % n
    }
}

/// After at least one squaring the chain holds `g` to the power two to the
/// `t`, reduced by `n`.
pub proof fn lemma_repeated_square(g: nat, t: nat, n: nat)
    requires
        n > 0,
        t > 0,
    ensures
        repeated_square(g, t, n) == pow(g as int, pow2(t)) % (n as int),
    decreases t,
{
    let prev = repeated_square(g, (t - 1) as nat, n);
    lemma_pow2_unfold(t);
    let e = pow2((t - 1) as nat);
    lemma_pow_adds(g as int, e, e);
    let p = pow(g as int, e);
    assert(pow(g as int, pow2(t)) == p * p);
    if t == 1 {
        lemma_pow2(0);
        lemma_pow0(2);
        lemma_pow1(g as int);
    } else {
        lemma_repeated_square(g, (t - 1) as nat, n);
        lemma_mul_mod_noop_general(p, p, n as int);
    }
}

/// At least one squaring in sequence gives what square-and-multiply gives for
/// the exponent two to the number of squarings.
pub proof fn lemma_squaring_matches_pow_mod(g: nat, t: nat, n: nat)
    requires
        n > 0,
        t > 0,
    ensures
        repeated_square(g, t, n) == pow_mod(g, pow2(t), n),
{
    lemma_repeated_square(g, t, n);
    vstd::arithmetic::power2::lemma_pow2_pos(t);
}

/// Squares `g` `t` times, reducing by `n` after each squaring. This is the
/// sequential computation of a time-lock puzzle: no step can start before the
/// one before it has ended.
pub fn sequential_squares(g: &BigNat, t: u32, n: &BigNat) -> (y: BigNat)
    requires
        n@ > 0,
    ensures
        y@ == repeated_square(g@, t as nat, n@),
{
    let mut y = g.clone();
    let mut i: u32 = 0;
    while i < t
        invariant
            i <= t,
            n@ > 0,
            y@ == repeated_square(g@, i as nat, n@),
        decreases t - i,
    {
        y = mul_mod(&y, &y, n);
        i = i + 1;
    }
    y
}

} // verus!
