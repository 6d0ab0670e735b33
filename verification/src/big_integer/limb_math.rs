//! The arithmetic of limb sequences: what a sequence of limbs is worth, and
//! what the schoolbook product of two such sequences is worth.

use crate::bigint::bit_length;
use vstd::arithmetic::power::{lemma_pow0, lemma_pow1, lemma_pow_adds, pow};
use vstd::arithmetic::power2::{lemma_pow2_adds, lemma_pow2_pos, lemma_pow2_unfold, pow2};
use vstd::prelude::*;

verus! {

/// The integer that limbs spell in the given base, least significant first.
pub open spec fn limbs_value(limbs: Seq<nat>, base: nat) -> nat
    decreases limbs.len(),
{
    if limbs.len() == 0 {
        0
    } else {
        limbs[0] + base * limbs_value(limbs.skip(1), base)
    }
}

/// Limb `k` of `b`, and zero where `b` has no such limb.
pub open spec fn limb_or_zero(b: Seq<nat>, k: int) -> nat {
    if 0 <= k < b.len() {
        b[k]
    } else {
        0
    }
}

/// Limb `i` of the schoolbook product: the sum of `a[j] * b[i - j]` over
/// every `j` for which both limbs exist.
pub open spec fn product_limb(a: Seq<nat>, b: Seq<nat>, i: int) -> nat
    decreases a.len(),
{
    if a.len() == 0 {
        0
    } else {
        product_limb(a.drop_last(), b, i) + a.last() * limb_or_zero(b, i - (a.len() - 1))
    }
}

/// The schoolbook product of two limb sequences, carries not yet propagated.
pub open spec fn product_limbs(a: Seq<nat>, b: Seq<nat>) -> Seq<nat> {
    Seq::new((a.len() + b.len() - 1) as nat, |i: int| product_limb(a, b, i))
}

/// `n` limbs that all hold `v`.
pub open spec fn constant_limbs(n: nat, v: nat) -> Seq<nat> {
    Seq::new(n, |i: int| v)
}

/// Powers of a natural number are natural numbers, and positive if the
/// number is.
pub proof fn lemma_pow_nat(b: nat, e: nat)
    ensures
        pow(b as int, e) >= 0,
        b > 0 ==> pow(b as int, e) > 0,
    decreases e,
{
    if e == 0 {
        lemma_pow0(b as int);
    } else {
        lemma_pow_nat(b, (e - 1) as nat);
        lemma_pow_adds(b as int, 1, (e - 1) as nat);
        lemma_pow1(b as int);
        let p = pow(b as int, (e - 1) as nat);
        assert(b * p >= 0 && (b > 0 && p > 0 ==> b * p > 0)) by (nonlinear_arith)
            requires
                b >= 0,
                p >= 0,
        ;
    }
}

/// `pow(b, e + 1) == b * pow(b, e)`.
pub proof fn lemma_pow_succ(b: nat, e: nat)
    ensures
        pow(b as int, e + 1) == b * pow(b as int, e),
{
    lemma_pow_adds(b as int, 1, e);
    lemma_pow1(b as int);
}

/// Appending a limb adds it at the next power of the base.
pub proof fn lemma_value_push(s: Seq<nat>, v: nat, base: nat)
    ensures
        limbs_value(s.push(v), base) == limbs_value(s, base) + v * pow(base as int, s.len()),
    decreases s.len(),
{
    let t = s.push(v);
    if s.len() == 0 {
        assert(t.skip(1) =~= Seq::<nat>::empty());
        assert(limbs_value(t.skip(1), base) == 0);
        lemma_pow0(base as int);
        assert(limbs_value(t, base) == v);
        assert(v * pow(base as int, 0) == v);
    } else {
        assert(t.skip(1) =~= s.skip(1).push(v));
        lemma_value_push(s.skip(1), v, base);
        lemma_pow_succ(base, (s.len() - 1) as nat);
        let p = pow(base as int, (s.len() - 1) as nat);
        let rest = limbs_value(s.skip(1), base);
        assert(base * (rest + v * p) == base * rest + v * (base * p)) by (nonlinear_arith);
        assert(limbs_value(t, base) == s[0] + base * rest + v * (base * p));
    }
}

/// Dropping the last limb takes it away at its power of the base.
pub proof fn lemma_value_drop_last(s: Seq<nat>, base: nat)
    requires
        s.len() > 0,
    ensures
        limbs_value(s, base) == limbs_value(s.drop_last(), base) + s.last() * pow(
            base as int,
            (s.len() - 1) as nat,
        ),
{
    assert(s =~= s.drop_last().push(s.last()));
    lemma_value_push(s.drop_last(), s.last(), base);
}

/// A sequence of zeros is worth zero.
pub proof fn lemma_value_zeros(s: Seq<nat>, base: nat)
    requires
        forall|i: int| 0 <= i < s.len() ==> s[i] == 0,
    ensures
        limbs_value(s, base) == 0,
    decreases s.len(),
{
    if s.len() > 0 {
        lemma_value_zeros(s.skip(1), base);
        assert(base * 0 == 0);
    }
}

/// The value of a limb-wise sum is the sum of the values.
pub proof fn lemma_value_add(s: Seq<nat>, t: Seq<nat>, u: Seq<nat>, base: nat)
    requires
        s.len() == t.len(),
        s.len() == u.len(),
        forall|i: int| 0 <= i < u.len() ==> u[i] == s[i] + t[i],
    ensures
        limbs_value(u, base) == limbs_value(s, base) + limbs_value(t, base),
    decreases s.len(),
{
    if s.len() > 0 {
        lemma_value_add(s.skip(1), t.skip(1), u.skip(1), base);
        let a = limbs_value(s.skip(1), base);
        let b = limbs_value(t.skip(1), base);
        assert(base * (a + b) == base * a + base * b) by (nonlinear_arith);
    }
}

/// A sequence that holds `k * b` moved up by `m` places, and zeros around
/// it, is worth `k * base^m` times what `b` is worth.
pub proof fn lemma_value_shifted_scaled(t: Seq<nat>, b: Seq<nat>, k: nat, m: nat, base: nat)
    requires
        t.len() >= m + b.len(),
        forall|i: int| 0 <= i < t.len() ==> t[i] == k * limb_or_zero(b, i - m),
    ensures
        limbs_value(t, base) == k * pow(base as int, m) * limbs_value(b, base),
    decreases t.len(),
{
    if t.len() == 0 {
        assert(b.len() == 0);
        assert(k * pow(base as int, m) * 0 == 0);
    } else if m > 0 {
        let t1 = t.skip(1);
        assert forall|i: int| 0 <= i < t1.len() implies t1[i] == k * limb_or_zero(
            b,
            i - (m - 1),
        ) by {
            assert(t1[i] == t[i + 1]);
        }
        lemma_value_shifted_scaled(t1, b, k, (m - 1) as nat, base);
        assert(t[0] == k * limb_or_zero(b, 0 - m));
        assert(t[0] == 0) by (nonlinear_arith)
            requires
                t[0] == k * 0,
        ;
        lemma_pow_succ(base, (m - 1) as nat);
        let p = pow(base as int, (m - 1) as nat);
        let v = limbs_value(b, base);
        assert(base * (k * p * v) == k * (base * p) * v) by (nonlinear_arith);
    } else {
        lemma_pow0(base as int);
        if b.len() == 0 {
            assert forall|i: int| 0 <= i < t.len() implies t[i] == 0 by {
                assert(t[i] == k * limb_or_zero(b, i - m));
                assert(k * 0 == 0);
            }
            lemma_value_zeros(t, base);
            assert(k * 1 * 0 == 0);
        } else {
            let t1 = t.skip(1);
            let b1 = b.skip(1);
            assert forall|i: int| 0 <= i < t1.len() implies t1[i] == k * limb_or_zero(b1, i) by {
                assert(t1[i] == t[i + 1]);
                assert(limb_or_zero(b, i + 1) == limb_or_zero(b1, i));
            }
            lemma_value_shifted_scaled(t1, b1, k, 0, base);
            assert(t[0] == k * b[0]);
            let v1 = limbs_value(b1, base);
            assert(k * b[0] + base * (k * 1 * v1) == k * 1 * (b[0] + base * v1))
                by (nonlinear_arith);
        }
    }
}

/// The schoolbook product is worth the product of the two values, whatever
/// number of limbs past the last pair it is written with.
pub proof fn lemma_product_value_padded(a: Seq<nat>, b: Seq<nat>, n: nat, base: nat)
    requires
        n + 1 >= a.len() + b.len(),
    ensures
        limbs_value(Seq::new(n, |i: int| product_limb(a, b, i)), base) == limbs_value(a, base)
            * limbs_value(b, base),
    decreases a.len(),
{
    let u = Seq::new(n, |i: int| product_limb(a, b, i));
    if a.len() == 0 {
        lemma_value_zeros(u, base);
        assert(0 * limbs_value(b, base) == 0);
    } else {
        let a1 = a.drop_last();
        let m = (a.len() - 1) as nat;
        let k = a.last();
        let s = Seq::new(n, |i: int| product_limb(a1, b, i));
        let t = Seq::new(n, |i: int| k * limb_or_zero(b, i - m));
        lemma_product_value_padded(a1, b, n, base);
        if b.len() == 0 {
            assert forall|i: int| 0 <= i < t.len() implies t[i] == 0 by {
                assert(k * 0 == 0);
            }
            lemma_value_zeros(t, base);
            assert(k * pow(base as int, m) * 0 == 0);
        } else {
            lemma_value_shifted_scaled(t, b, k, m, base);
        }
        lemma_value_add(s, t, u, base);
        lemma_value_drop_last(a, base);
        let va1 = limbs_value(a1, base);
        let vb = limbs_value(b, base);
        let p = pow(base as int, m);
        assert((va1 + k * p) * vb == va1 * vb + k * p * vb) by (nonlinear_arith);
    }
}

/// The schoolbook product is worth the product of the two values.
pub proof fn lemma_product_value(a: Seq<nat>, b: Seq<nat>, base: nat)
    requires
        a.len() >= 1,
        b.len() >= 1,
    ensures
        limbs_value(product_limbs(a, b), base) == limbs_value(a, base) * limbs_value(b, base),
{
    lemma_product_value_padded(a, b, (a.len() + b.len() - 1) as nat, base);
}

/// Limbs that are all below the base spell a number below the base to the
/// number of limbs.
pub proof fn lemma_value_bound(s: Seq<nat>, base: nat)
    requires
        base > 0,
        forall|i: int| 0 <= i < s.len() ==> s[i] < base,
    ensures
        limbs_value(s, base) < pow(base as int, s.len()),
    decreases s.len(),
{
    if s.len() == 0 {
        lemma_pow0(base as int);
    } else {
        lemma_value_bound(s.skip(1), base);
        lemma_pow_succ(base, (s.len() - 1) as nat);
        let r = limbs_value(s.skip(1), base);
        let p = pow(base as int, (s.len() - 1) as nat);
        assert(s[0] + base * r < base * p) by (nonlinear_arith)
            requires
                s[0] < base,
                r + 1 <= p,
                base > 0,
        ;
    }
}

/// The value splits at any place into a low part and a high part.
pub proof fn lemma_value_split(s: Seq<nat>, c: nat, base: nat)
    requires
        c <= s.len(),
    ensures
        limbs_value(s, base) == limbs_value(s.take(c as int), base) + pow(base as int, c)
            * limbs_value(s.skip(c as int), base),
    decreases c,
{
    if c == 0 {
        lemma_pow0(base as int);
        assert(s.skip(0) =~= s);
        assert(s.take(0) =~= Seq::<nat>::empty());
    } else {
        let s1 = s.skip(1);
        lemma_value_split(s1, (c - 1) as nat, base);
        assert(s1.take(c - 1) =~= s.take(c as int).skip(1));
        assert(s1.skip(c - 1) =~= s.skip(c as int));
        assert(s.take(c as int)[0] == s[0]);
        lemma_pow_succ(base, (c - 1) as nat);
        let lo = limbs_value(s1.take(c - 1), base);
        let hi = limbs_value(s.skip(c as int), base);
        let p = pow(base as int, (c - 1) as nat);
        assert(base * (lo + p * hi) == base * lo + (base * p) * hi) by (nonlinear_arith);
    }
}

/// Changing one limb changes the value by the difference at its place.
pub proof fn lemma_value_update(s: Seq<nat>, c: int, v: nat, base: nat)
    requires
        0 <= c < s.len(),
    ensures
        limbs_value(s.update(c, v), base) + s[c] * pow(base as int, c as nat) == limbs_value(
            s,
            base,
        ) + v * pow(base as int, c as nat),
    decreases c,
{
    if c == 0 {
        lemma_pow0(base as int);
        assert(s.update(0, v).skip(1) =~= s.skip(1));
    } else {
        let s1 = s.skip(1);
        lemma_value_update(s1, c - 1, v, base);
        assert(s.update(c, v).skip(1) =~= s1.update(c - 1, v));
        assert(s.update(c, v)[0] == s[0]);
        lemma_pow_succ(base, (c - 1) as nat);
        let p = pow(base as int, (c - 1) as nat);
        let x = limbs_value(s1.update(c - 1, v), base);
        let y = limbs_value(s1, base);
        assert(base * x + s[c] * (base * p) == base * y + v * (base * p)) by (nonlinear_arith)
            requires
                x + s1[c - 1] * p == y + v * p,
                s1[c - 1] == s[c],
        ;
    }
}

/// `n` limbs of `base - 1` spell `base^n - 1`.
pub proof fn lemma_value_all_max(n: nat, base: nat)
    requires
        base > 0,
    ensures
        limbs_value(constant_limbs(n, (base - 1) as nat), base) + 1 == pow(base as int, n),
    decreases n,
{
    let s = constant_limbs(n, (base - 1) as nat);
    if n == 0 {
        lemma_pow0(base as int);
    } else {
        lemma_value_all_max((n - 1) as nat, base);
        assert(s.skip(1) =~= constant_limbs((n - 1) as nat, (base - 1) as nat));
        lemma_pow_succ(base, (n - 1) as nat);
        let r = limbs_value(s.skip(1), base);
        let p = pow(base as int, (n - 1) as nat);
        assert((base - 1) + base * r + 1 == base * p) by (nonlinear_arith)
            requires
                r + 1 == p,
        ;
    }
}

/// A number is below two to its bit length, and, when positive, not below
/// two to one less.
pub proof fn lemma_bit_length_bounds(x: nat)
    ensures
        x < pow2(bit_length(x)),
        x > 0 ==> pow2((bit_length(x) - 1) as nat) <= x,
    decreases x,
{
    if x == 0 {
        lemma_pow2_pos(0);
    } else {
        lemma_bit_length_bounds(x / 2);
        lemma_pow2_unfold(bit_length(x));
        if x / 2 > 0 {
            lemma_pow2_unfold((bit_length(x) - 1) as nat);
        } else {
            assert(bit_length(x / 2) == 0);
            assert(pow2(0) == 1) by {
                vstd::arithmetic::power2::lemma2_to64();
            }
        }
    }
}

/// A number below two to the `k` has at most `k` bits.
pub proof fn lemma_bit_length_at_most(x: nat, k: nat)
    requires
        x < pow2(k),
    ensures
        bit_length(x) <= k,
    decreases x,
{
    if x > 0 {
        if k == 0 {
            assert(pow2(0) == 1) by {
                vstd::arithmetic::power2::lemma2_to64();
            }
        } else {
            lemma_pow2_unfold(k);
            lemma_bit_length_at_most(x / 2, (k - 1) as nat);
        }
    }
}

/// The powers of two at the limb boundaries of a field element.
pub proof fn lemma_pow2_values()
    ensures
        pow2(8) == 0x100,
        pow2(64) == 0x1_0000_0000_0000_0000nat,
        pow2(128) == 0x1_0000_0000_0000_0000_0000_0000_0000_0000nat,
        pow2(192) == 0x1_0000_0000_0000_0000_0000_0000_0000_0000_0000_0000_0000_0000nat,
        pow2(248) == 0x100_0000_0000_0000_0000_0000_0000_0000_0000_0000_0000_0000_0000_0000_0000_0000nat,
        pow2(253) == 0x2000_0000_0000_0000_0000_0000_0000_0000_0000_0000_0000_0000_0000_0000_0000_0000nat,
        pow2(256) == 0x1_0000_0000_0000_0000_0000_0000_0000_0000_0000_0000_0000_0000_0000_0000_0000_0000nat,
{
    vstd::arithmetic::power2::lemma2_to64();
    vstd::arithmetic::power2::lemma2_to64_rest();
    lemma_pow2_adds(64, 64);
    let a = pow2(64);
    assert(a * a == 0x1_0000_0000_0000_0000_0000_0000_0000_0000nat) by (nonlinear_arith)
        requires
            a == 0x1_0000_0000_0000_0000nat,
    ;
    lemma_pow2_adds(128, 64);
    let b = pow2(128);
    assert(b * a == 0x1_0000_0000_0000_0000_0000_0000_0000_0000_0000_0000_0000_0000nat) by (nonlinear_arith)
        requires
            a == 0x1_0000_0000_0000_0000nat,
            b == 0x1_0000_0000_0000_0000_0000_0000_0000_0000nat,
    ;
    let c = pow2(192);
    lemma_pow2_adds(192, 56);
    lemma_pow2_adds(192, 61);
    lemma_pow2_adds(192, 64);
    assert(c * 0x100_0000_0000_0000nat == 0x100_0000_0000_0000_0000_0000_0000_0000_0000_0000_0000_0000_0000_0000_0000_0000nat) by (nonlinear_arith)
        requires
            c == 0x1_0000_0000_0000_0000_0000_0000_0000_0000_0000_0000_0000_0000nat,
    ;
    assert(c * 0x2000_0000_0000_0000nat == 0x2000_0000_0000_0000_0000_0000_0000_0000_0000_0000_0000_0000_0000_0000_0000_0000nat) by (nonlinear_arith)
        requires
            c == 0x1_0000_0000_0000_0000_0000_0000_0000_0000_0000_0000_0000_0000nat,
    ;
    assert(c * a == 0x1_0000_0000_0000_0000_0000_0000_0000_0000_0000_0000_0000_0000_0000_0000_0000_0000nat) by (nonlinear_arith)
        requires
            a == 0x1_0000_0000_0000_0000nat,
            c == 0x1_0000_0000_0000_0000_0000_0000_0000_0000_0000_0000_0000_0000nat,
    ;
}

/// Two to the `w * n` is two to the `w`, to the `n`.
pub proof fn lemma_pow2_mul(w: nat, n: nat)
    ensures
        pow2(w * n) == pow(pow2(w) as int, n),
    decreases n,
{
    if n == 0 {
        lemma_pow0(pow2(w) as int);
        assert(w * 0 == 0);
        assert(pow2(0) == 1) by {
            vstd::arithmetic::power2::lemma2_to64();
        }
    } else {
        lemma_pow2_mul(w, (n - 1) as nat);
        lemma_pow_succ(pow2(w), (n - 1) as nat);
        assert(w * n == w + w * (n - 1)) by (nonlinear_arith)
            requires
                n >= 1,
        ;
        lemma_pow2_adds(w, w * ((n - 1) as nat));
    }
}

} // verus!
