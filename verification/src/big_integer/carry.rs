//! Carry propagation over limb sequences: splitting an overflowing limb into
//! chunks of the limb width and spreading them over the places above it.

use crate::big_integer::limb_math::{
    lemma_bit_length_at_most, lemma_bit_length_bounds, lemma_pow2_mul, lemma_pow_nat,
    lemma_pow_succ, lemma_value_bound, lemma_value_drop_last, lemma_value_push,
    lemma_value_split, lemma_value_update, limb_or_zero, limbs_value,
};
use crate::bigint::bit_length;
use vstd::arithmetic::div_mod::{
    lemma_fundamental_div_mod, lemma_mod_breakdown, };
use vstd::arithmetic::power::{lemma_pow0, lemma_pow_adds, pow};
use vstd::arithmetic::power2::{lemma_pow2_adds, lemma_pow2_pos, lemma_pow2_strictly_increases, pow2};
use vstd::prelude::*;

verus! {

/// Chunk `j` of `x`: bits `w * j` up to `w * (j + 1)`.
pub open spec fn digit(x: nat, j: nat, w: nat) -> nat {
    (x / pow2(w * j)) % pow2(w)
}

/// The first `n` chunks of `x`.
pub open spec fn digits(x: nat, n: nat, w: nat) -> Seq<nat> {
    Seq::new(n, |j: int| digit(x, j as nat, w))
}

/// The number of `w`-bit chunks that hold every bit of `x`.
pub open spec fn chunk_count(x: nat, w: nat) -> nat {
    let bits = bit_length(x);
    if bits % w == 0 {
        bits / w
    } else {
        bits / w + 1
    }
}

/// The limbs after the limb at place `c` has been replaced by the first of
/// `chunks`, and each further chunk added to the next place up. Places that
/// `s` does not have are taken as zero.
pub open spec fn spread(s: Seq<nat>, c: int, chunks: Seq<nat>) -> Seq<nat> {
    let len = if s.len() >= c + chunks.len() {
        s.len()
    } else {
        (c + chunks.len()) as nat
    };
    Seq::new(
        len,
        |i: int|
            if i == c {
                limb_or_zero(chunks, 0)
            } else if c < i < c + chunks.len() {
                limb_or_zero(s, i) + chunks[i - c]
            } else {
                s[i]
            },
    )
}

/// One step of carry propagation: the limb at place `c` is split into as
/// many chunks as it needs, which are spread over the places from `c` up.
pub open spec fn settle(s: Seq<nat>, c: int, w: nat) -> Seq<nat> {
    spread(s, c, digits(s[c], chunk_count(s[c], w), w))
}

/// The limbs after the places below `c` have been settled, lowest first.
pub open spec fn settled(s: Seq<nat>, c: nat, w: nat) -> Seq<nat>
    decreases c,
{
    if c == 0 {
        s
    } else {
        settle(settled(s, (c - 1) as nat, w), c - 1, w)
    }
}

/// The first `n` chunks of `x` spell `x` below two to the `w * n`.
pub proof fn lemma_digits_value(x: nat, n: nat, w: nat)
    requires
        w >= 1,
    ensures
        limbs_value(digits(x, n, w), pow2(w)) == x % pow2(w * n),
    decreases n,
{
    let base = pow2(w);
    lemma_pow2_pos(w);
    if n == 0 {
        assert(w * 0 == 0);
        assert(pow2(0) == 1) by {
            vstd::arithmetic::power2::lemma2_to64();
        }
    } else {
        let m = (n - 1) as nat;
        lemma_digits_value(x, m, w);
        assert(digits(x, n, w).drop_last() =~= digits(x, m, w));
        lemma_value_drop_last(digits(x, n, w), base);
        lemma_pow2_mul(w, m);
        lemma_pow2_pos(w * m);
        assert(w * n == w * m + w) by (nonlinear_arith)
            requires
                n == m + 1,
        ;
        lemma_pow2_adds(w * m, w);
        lemma_mod_breakdown(x as int, pow2(w * m) as int, base as int);
        let d = digit(x, m, w);
        let p = pow2(w * m);
        assert(d * p == p * d) by (nonlinear_arith);
    }
}

/// Spreading chunks keeps the value, but for what the replaced limb and the
/// chunks are worth at that place.
pub proof fn lemma_spread_value(s: Seq<nat>, c: int, chunks: Seq<nat>, base: nat)
    requires
        0 <= c < s.len(),
    ensures
        limbs_value(spread(s, c, chunks), base) + s[c] * pow(base as int, c as nat) == limbs_value(
            s,
            base,
        ) + limbs_value(chunks, base) * pow(base as int, c as nat),
    decreases chunks.len(),
{
    let n = chunks.len();
    let pc = pow(base as int, c as nat);
    if n == 0 {
        assert(spread(s, c, chunks) =~= s.update(c, 0));
        lemma_value_update(s, c, 0, base);
        assert(0 * pc == 0);
    } else if n == 1 {
        assert(spread(s, c, chunks) =~= s.update(c, chunks[0]));
        lemma_value_update(s, c, chunks[0], base);
        assert(chunks.skip(1) =~= Seq::<nat>::empty());
        assert(limbs_value(chunks.skip(1), base) == 0);
        assert(limbs_value(chunks, base) == chunks[0] + base * 0);
    } else {
        let head = chunks.drop_last();
        let t = spread(s, c, head);
        let u = spread(s, c, chunks);
        let top = c + n - 1;
        lemma_spread_value(s, c, head, base);
        lemma_value_drop_last(chunks, base);
        lemma_pow_adds(base as int, c as nat, (n - 1) as nat);
        let pn = pow(base as int, (n - 1) as nat);
        let pt = pow(base as int, top as nat);
        assert(pt == pc * pn);
        let last = chunks.last();
        if top < t.len() {
            assert(u =~= t.update(top, t[top] + last));
            lemma_value_update(t, top, t[top] + last, base);
            assert((t[top] + last) * pt == t[top] * pt + last * pt) by (nonlinear_arith);
        } else {
            assert(t.len() == top);
            assert(u =~= t.push(last));
            lemma_value_push(t, last, base);
        }
        let vh = limbs_value(head, base);
        assert((vh + last * pn) * pc == vh * pc + last * (pc * pn)) by (nonlinear_arith);
    }
}

/// A number takes at most as many chunks as there are `w`-bit places below a
/// bound on it, at least one when it is positive, and its chunks hold it all.
pub proof fn lemma_chunk_count(x: nat, w: nat, m: nat)
    requires
        w >= 1,
        x < pow2(w * m),
    ensures
        chunk_count(x, w) <= m,
        x > 0 ==> chunk_count(x, w) >= 1,
        x < pow2(w * chunk_count(x, w)),
{
    let bits = bit_length(x);
    let n = chunk_count(x, w);
    lemma_bit_length_at_most(x, w * m);
    lemma_bit_length_bounds(x);
    lemma_fundamental_div_mod(bits as int, w as int);
    let q = bits / w;
    assert(w * q <= bits <= w * m);
    assert(q <= m) by (nonlinear_arith)
        requires
            w * q <= w * m,
            w >= 1,
    ;
    if bits % w != 0 {
        assert(q < m) by (nonlinear_arith)
            requires
                w * q < w * m,
                w >= 1,
        ;
    }
    if bits % w == 0 {
        assert(w * n == bits);
    } else {
        assert(w * (q + 1) == w * q + w) by (nonlinear_arith);
        assert(w * n > bits);
    }
    if w * n > bits {
        lemma_pow2_strictly_increases(bits, w * n);
    }
    if x > 0 {
        assert(bits >= 1);
        if n == 0 {
            assert(w * 0 == 0);
        }
    }
}

/// What can be said of the limb at place `c` once every place below it is
/// settled, when the whole is worth `total` and `total` takes `d + 1` places:
/// the limb exists, is positive, and is below the base to the places left.
pub proof fn lemma_next_limb(s: Seq<nat>, c: nat, d: nat, base: nat, total: nat)
    requires
        base > 1,
        c <= d,
        s.len() >= d,
        limbs_value(s, base) == total,
        forall|i: int| 0 <= i < c ==> s[i] < base,
        c < d ==> s[c as int] > 0,
        pow(base as int, d) <= total,
        total < pow(base as int, d + 1),
    ensures
        c < s.len(),
        s[c as int] > 0,
        s[c as int] < pow(base as int, (d + 1 - c) as nat),
{
    let lo_seq = s.take(if c <= s.len() {
        c as int
    } else {
        s.len() as int
    });
    lemma_pow_nat(base, c);
    lemma_pow_nat(base, d);
    let pc = pow(base as int, c);
    let pd = pow(base as int, d);
    if c >= s.len() {
        assert(c == d && s.len() == d);
        assert(s.take(d as int) =~= s);
        lemma_value_bound(s, base);
        assert(false);
    }
    lemma_value_split(s, c, base);
    let lo = limbs_value(s.take(c as int), base);
    let hi_seq = s.skip(c as int);
    let hi = limbs_value(hi_seq, base);
    lemma_value_bound(s.take(c as int), base);
    assert(lo < pc);
    assert(hi_seq[0] == s[c as int]);
    let rest = limbs_value(hi_seq.skip(1), base);
    assert(hi == s[c as int] + base * rest);
    lemma_pow_adds(base as int, c, (d + 1 - c) as nat);
    let pr = pow(base as int, (d + 1 - c) as nat);
    lemma_pow_nat(base, (d + 1 - c) as nat);
    assert(pow(base as int, d + 1) == pc * pr);
    assert(hi < pr) by (nonlinear_arith)
        requires
            lo + pc * hi < pc * pr,
            lo >= 0,
            pc > 0,
    ;
    assert(base * rest >= 0) by (nonlinear_arith)
        requires
            base > 0,
            rest >= 0,
    ;
    if c == d {
        lemma_pow_succ(base, 0);
        lemma_pow0(base as int);
        assert(pr == base);
        assert(hi >= 1) by (nonlinear_arith)
            requires
                lo + pc * hi >= pc,
                lo < pc,
                pc > 0,
                hi >= 0,
        ;
        assert(rest == 0) by (nonlinear_arith)
            requires
                s[c as int] + base * rest < base,
                rest >= 0,
                base > 0,
        ;
        assert(base * rest == 0) by (nonlinear_arith)
            requires
                rest == 0,
        ;
    }
}

} // verus!
