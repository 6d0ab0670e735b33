//! Why the product of two fresh integers can always be refreshed with the
//! chunks that the largest product needs.

use crate::big_integer::carry::{
    chunk_count, digit, digits, lemma_chunk_count, lemma_digits_value, lemma_next_limb,
    lemma_spread_value, settle, settled, spread,
};
use crate::big_integer::chip::{is_fresh, refresh_from, refreshed};
use crate::big_integer::limb_math::{
    constant_limbs, lemma_bit_length_bounds, lemma_pow2_mul, lemma_pow_nat, lemma_product_value,
    lemma_value_bound, lemma_value_split, lemma_value_zeros, limb_or_zero, limbs_value,
    product_limb, product_limbs,
};
use crate::big_integer::{
    counts_in_range, increased_limbs, lemma_max_product_bounds, max_limb, max_product_limbs,
    pair_count,
};
use crate::bigint::bit_length;
use vstd::arithmetic::div_mod::lemma_small_mod;
use vstd::arithmetic::power::pow;
use vstd::arithmetic::power2::{
    lemma_pow2_adds, lemma_pow2_pos, lemma_pow2_strictly_increases, lemma_pow2_unfold, pow2,
};
use vstd::prelude::*;

verus! {

/// The largest product after the places below `c` have been settled.
pub open spec fn max_settled(w: nat, l: nat, r: nat, c: nat) -> Seq<nat> {
    settled(max_product_limbs(w, l, r), c, w)
}

/// Powers of two do not fall as the exponent grows.
pub proof fn lemma_pow2_monotone(a: nat, b: nat)
    requires
        a <= b,
    ensures
        pow2(a) <= pow2(b),
{
    if a < b {
        lemma_pow2_strictly_increases(a, b);
    }
}

/// A number that is at least two to the `w * k` needs more than `k` chunks.
pub proof fn lemma_chunk_count_at_least(x: nat, w: nat, k: nat)
    requires
        w >= 1,
        x >= pow2(w * k),
    ensures
        chunk_count(x, w) >= k + 1,
{
    let bits = bit_length(x);
    lemma_bit_length_bounds(x);
    assert(w * bits >= bits) by (nonlinear_arith)
        requires
            w >= 1,
    ;
    lemma_pow2_monotone(bits, w * bits);
    lemma_chunk_count(x, w, bits);
    let n = chunk_count(x, w);
    if n <= k {
        assert(w * n <= w * k) by (nonlinear_arith)
            requires
                n <= k,
        ;
        lemma_pow2_monotone(w * n, w * k);
    }
}

/// What holds of the largest product while it is settled from the bottom
/// up: it keeps its value and its places, the settled places are fresh, the
/// places still to settle hold at least what the product put there, and the
/// next place to settle holds a positive number whose chunks stay within the
/// places that there are.
pub proof fn lemma_max_settled(w: nat, l: nat, r: nat, c: nat)
    requires
        w >= 1,
        l >= 1,
        r >= 1,
        w >= 2 || (l >= 2 && r >= 2),
        c <= l + r,
    ensures
        l + r - 1 <= max_settled(w, l, r, c).len() <= l + r,
        limbs_value(max_settled(w, l, r, c), pow2(w)) == limbs_value(
            max_product_limbs(w, l, r),
            pow2(w),
        ),
        forall|i: int|
            0 <= i < c && i < max_settled(w, l, r, c).len() ==> #[trigger] max_settled(
                w,
                l,
                r,
                c,
            )[i] < pow2(w),
        forall|i: int|
            c <= i < l + r - 1 ==> #[trigger] max_settled(w, l, r, c)[i] >= max_product_limbs(
                w,
                l,
                r,
            )[i],
        c < l + r ==> c < max_settled(w, l, r, c).len() && max_settled(w, l, r, c)[c as int] > 0
            && 1 <= chunk_count(max_settled(w, l, r, c)[c as int], w) <= l + r - c
            && max_settled(w, l, r, c)[c as int] < pow2(
            w * chunk_count(max_settled(w, l, r, c)[c as int], w),
        ),
    decreases c,
{
    let raw = max_product_limbs(w, l, r);
    let base = pow2(w);
    let d = (l + r - 1) as nat;
    let total = limbs_value(raw, base);
    let s = max_settled(w, l, r, c);
    lemma_max_product_bounds(w, l, r);
    lemma_pow2_pos(w);
    assert forall|i: int| 0 <= i < d implies #[trigger] raw[i] > 0 by {
        let m = max_limb(w);
        let p = pair_count(l, r, i);
        assert(p >= 1);
        assert(p * m * m > 0) by (nonlinear_arith)
            requires
                p >= 1,
                m >= 1,
        ;
    }
    if c > 0 {
        let p = (c - 1) as nat;
        lemma_max_settled(w, l, r, p);
        let before = max_settled(w, l, r, p);
        let x = before[p as int];
        let n = chunk_count(x, w);
        let ds = digits(x, n, w);
        assert(s == settle(before, p as int, w));
        assert(s == spread(before, p as int, ds));
        lemma_spread_value(before, p as int, ds, base);
        lemma_digits_value(x, n, w);
        lemma_small_mod(x, pow2(w * n));
        assert(s[p as int] == digit(x, 0, w));
        assert forall|i: int| 0 <= i < c && i < s.len() implies #[trigger] s[i] < base by {
            if i < p {
                assert(s[i] == before[i]);
            }
        }
        assert forall|i: int| c <= i < d implies #[trigger] s[i] >= raw[i] by {
            assert(before[i] >= raw[i]);
        }
    }
    if c < l + r {
        lemma_next_limb(s, c, d, base, total);
        let places = (d + 1 - c) as nat;
        lemma_pow2_mul(w, places);
        lemma_chunk_count(s[c as int], w, places);
    }
}

/// The chunks that the largest product needs stay within its places.
pub proof fn lemma_increased_limbs_in_range(w: nat, l: nat, r: nat)
    requires
        w >= 1,
        l >= 1,
        r >= 1,
        w >= 2 || (l >= 2 && r >= 2),
    ensures
        counts_in_range(increased_limbs(w, l, r)),
{
    let counts = increased_limbs(w, l, r);
    assert forall|i: int| 0 <= i < counts.len() implies i + #[trigger] counts[i]
        < counts.len() by {
        lemma_max_settled(w, l, r, i as nat);
    }
}

/// A limb of the product of two integers is at most as many products of two
/// limbs as pairs of limbs meet at its place.
pub proof fn lemma_product_limb_pairs(a: Seq<nat>, b: Seq<nat>, i: int, bound: nat)
    requires
        forall|j: int| 0 <= j < a.len() ==> #[trigger] a[j] <= bound,
        forall|j: int| 0 <= j < b.len() ==> #[trigger] b[j] <= bound,
    ensures
        product_limb(a, b, i) <= pair_count(a.len(), b.len(), i) * bound * bound,
    decreases a.len(),
{
    let l = a.len();
    let r = b.len();
    if l == 0 {
        assert(pair_count(l, r, i) == 0);
        assert(0 * bound * bound == 0);
    } else {
        let head = a.drop_last();
        lemma_product_limb_pairs(head, b, i, bound);
        let k = i - (l - 1);
        let fewer = pair_count((l - 1) as nat, r, i);
        let x = a.last();
        let y = limb_or_zero(b, k);
        if 0 <= k < r {
            assert(pair_count(l, r, i) == fewer + 1);
            assert(x * y <= bound * bound) by (nonlinear_arith)
                requires
                    x <= bound,
                    y <= bound,
            ;
            assert((fewer + 1) * bound * bound == fewer * bound * bound + bound * bound)
                by (nonlinear_arith);
        } else {
            assert(pair_count(l, r, i) == fewer);
            assert(x * 0 == 0);
        }
    }
}

/// Whether limbs are what settling the product of two fresh `l`-limb
/// integers can have made of it after `c` places: each place still to settle
/// holds at most the largest products that meet there and one chunk from
/// each settled place.
pub open spec fn within_reach(s: Seq<nat>, w: nat, l: nat, c: nat) -> bool {
    forall|i: int|
        c <= i < s.len() ==> #[trigger] s[i] <= pair_count(l, l, i) * max_limb(w) * max_limb(w)
            + c * max_limb(w)
}

/// From any place on, the product of two fresh integers of `l` limbs each
/// can be refreshed with the chunks that the largest such product needs.
pub proof fn lemma_refresh_goes_on(s: Seq<nat>, w: nat, l: nat, c: nat, total: nat)
    requires
        w >= 2,
        l >= 1,
        l <= pow2(w),
        s.len() == 2 * l,
        c <= 2 * l,
        limbs_value(s, pow2(w)) == total,
        total < pow2(w * (2 * l)),
        within_reach(s, w, l, c),
    ensures
        refresh_from(s, increased_limbs(w, l, l), c, w) is Some,
    decreases 2 * l - c,
{
    let counts = increased_limbs(w, l, l);
    let base = pow2(w);
    let m = max_limb(w);
    let d = (2 * l - 1) as nat;
    if c < 2 * l {
        lemma_max_settled(w, l, l, c);
        lemma_pow2_pos(w);
        lemma_pow2_unfold(w);
        lemma_pow2_unfold((w - 1) as nat);
        lemma_pow2_pos((w - 2) as nat);
        assert(base >= 4);
        let top = max_settled(w, l, l, c)[c as int];
        let n = chunk_count(top, w);
        assert(counts[c as int] + 1 == n);
        let x = s[c as int];
        let raw = max_product_limbs(w, l, l);
        assert(x < pow2(w * n)) by {
            if c + 2 >= 2 * l {
                // the two highest places: by what the whole is worth
                lemma_value_split(s, c, base);
                let hi = s.skip(c as int);
                assert(hi[0] == x);
                let rest = limbs_value(hi.skip(1), base);
                let lo = limbs_value(s.take(c as int), base);
                lemma_pow2_mul(w, c);
                let pc = pow(base as int, c);
                lemma_pow_nat(base, c);
                let left = (2 * l - c) as nat;
                assert(w * (2 * l) == w * c + w * left) by (nonlinear_arith)
                    requires
                        2 * l == c + left,
                ;
                lemma_pow2_adds(w * c, w * left);
                lemma_pow2_pos(w * left);
                let pl = pow2(w * left);
                assert(x < pl) by (nonlinear_arith)
                    requires
                        lo + pc * (x + base * rest) < pc * pl,
                        pc > 0,
                        lo >= 0,
                        rest >= 0,
                        base > 0,
                ;
                if c + 1 == 2 * l {
                    lemma_pow2_monotone(w * left, w * n);
                    assert(w * n >= w * 1) by (nonlinear_arith)
                        requires
                            n >= 1,
                    ;
                } else {
                    assert(pair_count(l, l, c as int) == 1);
                    assert(raw[c as int] == 1 * m * m);
                    assert(top >= raw[c as int]);
                    assert(m * m >= base) by (nonlinear_arith)
                        requires
                            m == base - 1,
                            base >= 4,
                    ;
                    assert(w * 1 == w);
                    lemma_chunk_count_at_least(top, w, 1);
                    assert(w * n >= w * 2) by (nonlinear_arith)
                        requires
                            n >= 2,
                    ;
                    assert(w * left == w * 2);
                    lemma_pow2_monotone(w * 2, w * n);
                }
            } else if c == 0 {
                assert(x <= pair_count(l, l, 0) * m * m + 0 * m);
                assert(raw[0] == pair_count(l, l, 0) * m * m);
                assert(top >= raw[0]);
            } else {
                let p = pair_count(l, l, c as int);
                assert(2 <= p <= l);
                assert(raw[c as int] == p * m * m);
                assert(top >= raw[c as int]);
                assert(p * m * m >= base * base) by (nonlinear_arith)
                    requires
                        p >= 2,
                        m == base - 1,
                        base >= 4,
                ;
                lemma_pow2_adds(w, w);
                assert(w * 2 == w + w);
                lemma_chunk_count_at_least(top, w, 2);
                assert(w * n >= w * 3) by (nonlinear_arith)
                    requires
                        n >= 3,
                ;
                lemma_pow2_adds(w + w, w);
                assert(w * 3 == w + w + w);
                lemma_pow2_monotone(w * 3, w * n);
                assert(x <= p * m * m + c * m);
                assert(p * m * m + c * m < base * base * base) by (nonlinear_arith)
                    requires
                        p <= l,
                        c < 2 * l,
                        l <= base,
                        m == base - 1,
                        base >= 4,
                        p >= 0,
                        c >= 0,
                ;
            }
        }
        let ds = digits(x, n, w);
        let next = spread(s, c as int, ds);
        lemma_spread_value(s, c as int, ds, base);
        lemma_digits_value(x, n, w);
        lemma_small_mod(x, pow2(w * n));
        assert(next.len() == s.len());
        assert(within_reach(next, w, l, c + 1)) by {
            assert forall|i: int| c + 1 <= i < next.len() implies #[trigger] next[i]
                <= pair_count(l, l, i) * m * m + (c + 1) * m by {
                assert(s[i] <= pair_count(l, l, i) * m * m + c * m);
                if i < c + n {
                    assert(ds[i - c] == digit(x, (i - c) as nat, w));
                    assert(ds[i - c] <= m);
                }
                assert((c + 1) * m == c * m + m) by (nonlinear_arith);
            }
        }
        lemma_refresh_goes_on(next, w, l, c + 1, total);
    }
}

/// The product of two fresh integers of `l` limbs each can always be
/// refreshed with the chunks that the largest such product needs, as long as
/// a limb can count the limbs.
pub proof fn lemma_product_refreshes(a: Seq<nat>, b: Seq<nat>, w: nat)
    requires
        w >= 2,
        a.len() >= 1,
        a.len() == b.len(),
        a.len() <= pow2(w),
        is_fresh(a, w),
        is_fresh(b, w),
    ensures
        refreshed(product_limbs(a, b), increased_limbs(w, a.len(), a.len()), w) is Some,
{
    let l = a.len();
    let base = pow2(w);
    let m = max_limb(w);
    let product = product_limbs(a, b);
    let counts = increased_limbs(w, l, l);
    let start = product + constant_limbs((counts.len() - product.len()) as nat, 0);
    lemma_pow2_pos(w);
    assert(start.len() == 2 * l);
    assert(within_reach(start, w, l, 0)) by {
        assert forall|i: int| 0 <= i < start.len() implies #[trigger] start[i] <= pair_count(
            l,
            l,
            i,
        ) * m * m + 0 * m by {
            if i < product.len() {
                assert forall|j: int| 0 <= j < a.len() implies #[trigger] a[j] <= m by {
                }
                assert forall|j: int| 0 <= j < b.len() implies #[trigger] b[j] <= m by {
                }
                lemma_product_limb_pairs(a, b, i, m);
            }
            assert(pair_count(l, l, i) * m * m >= 0) by (nonlinear_arith);
        }
    }
    lemma_value_split(start, product.len(), base);
    assert(start.take(product.len() as int) =~= product);
    lemma_value_zeros(start.skip(product.len() as int), base);
    assert(pow(base as int, product.len()) * 0 == 0);
    lemma_product_value(a, b, base);
    lemma_value_bound(a, base);
    lemma_value_bound(b, base);
    lemma_pow2_mul(w, l);
    assert(w * (2 * l) == w * l + w * l) by (nonlinear_arith);
    lemma_pow2_adds(w * l, w * l);
    let va = limbs_value(a, base);
    let vb = limbs_value(b, base);
    let pl = pow2(w * l);
    assert(va * vb < pl * pl) by (nonlinear_arith)
        requires
            va < pl,
            vb < pl,
    ;
    lemma_refresh_goes_on(start, w, l, 0, limbs_value(start, base));
}

} // verus!
