//! Integers too large for the proof system's field, held as limbs.
//!
//! A limb sequence is either fresh, with every limb below two to the limb
//! width, or multiplied: the raw schoolbook product of two fresh sequences,
//! whose limbs may overflow the width until carries have been propagated.

pub mod carry;
pub mod chip;
pub mod integer;
pub mod limb_math;
pub mod refresh_laws;

use crate::big_integer::carry::{
    chunk_count, digit, digits, lemma_chunk_count, lemma_digits_value, lemma_next_limb,
    lemma_spread_value, settle, settled, spread,
};
use crate::big_integer::limb_math::{
    constant_limbs, lemma_pow2_mul, lemma_pow_nat, lemma_pow_succ, lemma_product_value,
    lemma_value_all_max, limb_or_zero, limbs_value, product_limb, product_limbs,
};
use crate::big_integer::limb_math::{lemma_bit_length_at_most, lemma_bit_length_bounds};
use crate::bigint::{
    big_add, big_bits, big_mul, big_rem, big_shl, big_shr, big_sub, BigNat, MAX_SHIFT,
};
use crate::encryptor::grain::fe_views;
use crate::field::{modulus, Fe};
use vstd::arithmetic::div_mod::{lemma_div_denominator, lemma_small_mod};
use vstd::arithmetic::power::{lemma_pow_adds, lemma_pow_increases, pow};
use vstd::arithmetic::power2::{lemma_pow2_adds, lemma_pow2_pos, lemma_pow2_unfold, pow2};
use vstd::prelude::*;

verus! {

/// The numbers that a vector of big integers holds.
pub open spec fn nat_views(v: Seq<BigNat>) -> Seq<nat> {
    Seq::new(v.len(), |i: int| v[i]@)
}

/// The largest value of a fresh limb of `w` bits.
pub open spec fn max_limb(w: nat) -> nat {
    (pow2(w) - 1) as nat
}

/// By how much `i + 1` exceeds `n`, if it does.
pub open spec fn overshoot(i: int, n: nat) -> int {
    if i + 1 > n {
        i + 1 - n
    } else {
        0
    }
}

/// The number of pairs `(j, k)` with `j + k == i`, `j < l` and `k < r`: how
/// many limb products meet at place `i` of a schoolbook product.
pub open spec fn pair_count(l: nat, r: nat, i: int) -> nat {
    if 0 <= i < l + r - 1 {
        (i + 1 - overshoot(i, l) - overshoot(i, r)) as nat
    } else {
        0
    }
}

/// The largest raw product of an `l`-limb and an `r`-limb fresh integer:
/// what the schoolbook product holds when every limb is at its maximum.
pub open spec fn max_product_limbs(w: nat, l: nat, r: nat) -> Seq<nat> {
    Seq::new((l + r - 1) as nat, |i: int| pair_count(l, r, i) * max_limb(w) * max_limb(w))
}

/// For each place of the largest raw product, lowest first, the number of
/// further places that its limb overflows into when carries are propagated
/// from the bottom up.
pub open spec fn increased_limbs(w: nat, l: nat, r: nat) -> Seq<nat> {
    let raw = max_product_limbs(w, l, r);
    Seq::new(l + r, |c: int| (chunk_count(settled(raw, c as nat, w)[c], w) - 1) as nat)
}

/// The inputs for which the auxiliary data is defined: at least one limb on
/// each side, a limb count that a machine word holds, a limb width that a
/// number can be shifted by, and limbs wide enough that the largest product
/// fills its top place.
pub open spec fn refresh_aux_inputs(limb_width: usize, num_limbs_l: usize, num_limbs_r: usize) -> bool {
    &&& 1 <= limb_width <= MAX_SHIFT
    &&& num_limbs_l >= 1
    &&& num_limbs_r >= 1
    &&& num_limbs_l + num_limbs_r <= usize::MAX
    &&& (limb_width >= 2 || (num_limbs_l >= 2 && num_limbs_r >= 2))
}

/// Marks a kind of limb range.
pub trait RangeType: Clone {
}

/// The range of limbs that have not been multiplied: each is below two to
/// the limb width.
#[derive(Debug, Clone)]
pub struct Fresh {
}

impl RangeType for Fresh {
}

/// The range of limbs that come out of a multiplication: each may exceed
/// the limb width until the integer is refreshed.
#[derive(Debug, Clone)]
pub struct Muled {
}

impl RangeType for Muled {
}

/// What is needed to refresh the product of an `l`-limb and an `r`-limb
/// integer: how many extra places each limb of the product can overflow into.
#[derive(Debug, Clone)]
pub struct RefreshAux {
    pub limb_width: usize,
    pub num_limbs_l: usize,
    pub num_limbs_r: usize,
    pub increased_limbs_vec: Vec<usize>,
}

/// Whether the chunks of every place stay within the places there are.
pub open spec fn counts_in_range(counts: Seq<nat>) -> bool {
    forall|i: int| 0 <= i < counts.len() ==> i + #[trigger] counts[i] < counts.len()
}

/// The overflow counts of an auxiliary record, as numbers.
pub open spec fn counts(v: Seq<usize>) -> Seq<nat> {
    Seq::new(v.len(), |i: int| v[i] as nat)
}

/// Limb `i` of the product of two all-maximum integers is the number of
/// pairs that meet there times the maximum squared.
pub proof fn lemma_max_product_limb(m: nat, l: nat, r: nat, i: int)
    ensures
        product_limb(constant_limbs(l, m), constant_limbs(r, m), i) == pair_count(l, r, i) * m * m,
    decreases l,
{
    let a = constant_limbs(l, m);
    let b = constant_limbs(r, m);
    if l == 0 {
        assert(pair_count(l, r, i) == 0);
        assert(0 * m * m == 0);
    } else {
        let l1 = (l - 1) as nat;
        assert(a.drop_last() =~= constant_limbs(l1, m));
        lemma_max_product_limb(m, l1, r, i);
        let k = i - l1;
        let fewer = pair_count(l1, r, i);
        if 0 <= k < r {
            assert(limb_or_zero(b, k) == m);
            assert(pair_count(l, r, i) == fewer + 1);
            assert((fewer + 1) * m * m == fewer * m * m + m * m) by (nonlinear_arith);
        } else {
            assert(limb_or_zero(b, k) == 0);
            assert(pair_count(l, r, i) == fewer);
            assert(m * 0 == 0);
        }
    }
}

/// The largest product takes exactly `l + r` places of the base.
pub proof fn lemma_max_product_bounds(w: nat, l: nat, r: nat)
    requires
        w >= 1,
        l >= 1,
        r >= 1,
        w >= 2 || (l >= 2 && r >= 2),
    ensures
        pow2(w) > 1,
        limbs_value(max_product_limbs(w, l, r), pow2(w)) >= pow(pow2(w) as int, (l + r - 1) as nat),
        limbs_value(max_product_limbs(w, l, r), pow2(w)) < pow(pow2(w) as int, l + r),
{
    let base = pow2(w);
    let m = max_limb(w);
    lemma_pow2_pos(w);
    lemma_pow2_unfold(w);
    lemma_pow2_pos((w - 1) as nat);
    let a = constant_limbs(l, m);
    let b = constant_limbs(r, m);
    assert(product_limbs(a, b) =~= max_product_limbs(w, l, r)) by {
        assert forall|i: int| 0 <= i < l + r - 1 implies product_limb(a, b, i) == pair_count(
            l,
            r,
            i,
        ) * m * m by {
            lemma_max_product_limb(m, l, r, i);
        }
    }
    lemma_product_value(a, b, base);
    lemma_value_all_max(l, base);
    lemma_value_all_max(r, base);
    let x = pow(base as int, l);
    let y = pow(base as int, r);
    let d = (l + r - 1) as nat;
    let p = pow(base as int, d);
    lemma_pow_nat(base, l);
    lemma_pow_nat(base, r);
    lemma_pow_nat(base, d);
    lemma_pow_adds(base as int, l, r);
    lemma_pow_succ(base, d);
    assert(x * y == base * p);
    let v = limbs_value(max_product_limbs(w, l, r), base);
    assert(v == (x - 1) * (y - 1));
    assert((x - 1) * (y - 1) == x * y - x - y + 1) by (nonlinear_arith);
    if w >= 2 {
        lemma_pow2_unfold((w - 1) as nat);
        lemma_pow2_pos((w - 2) as nat);
        assert(base >= 4);
        lemma_pow_increases(base, l, d);
        lemma_pow_increases(base, r, d);
        assert(base * p - x - y + 1 >= p) by (nonlinear_arith)
            requires
                base >= 4,
                x <= p,
                y <= p,
                p > 0,
        ;
        assert(v >= p);
    } else {
        assert(pow2(0) == 1) by {
            vstd::arithmetic::power2::lemma2_to64();
        }
        assert(base == 2);
        let q = pow(base as int, (d - 1) as nat);
        lemma_pow_succ(base, (d - 1) as nat);
        lemma_pow_increases(base, l, (d - 1) as nat);
        lemma_pow_increases(base, r, (d - 1) as nat);
        assert(p == 2 * q);
        assert(x * y == 2 * p);
        assert(v >= p);
    }
}

/// The schoolbook product of two limb vectors: limb `i` is the sum of the
/// products `a[j] * b[i - j]`. No carry is propagated.
pub fn schoolbook_product(a: &Vec<BigNat>, b: &Vec<BigNat>) -> (product: Vec<BigNat>)
    requires
        a.len() >= 1,
        b.len() >= 1,
        a.len() + b.len() <= usize::MAX,
    ensures
        nat_views(product@) == product_limbs(nat_views(a@), nat_views(b@)),
{
    let d: usize = a.len() + b.len() - 1;
    let mut product: Vec<BigNat> = Vec::new();
    let ghost av = nat_views(a@);
    let ghost bv = nat_views(b@);
    let mut i: usize = 0;
    while i < d
        invariant
            i <= d,
            d == a.len() + b.len() - 1,
            av == nat_views(a@),
            bv == nat_views(b@),
            product.len() == i,
            forall|k: int| 0 <= k < i ==> (#[trigger] product[k])@ == product_limb(av, bv, k),
        decreases d - i,
    {
        let mut acc = BigNat::zero();
        let mut j: usize = 0;
        while j < a.len()
            invariant
                j <= a.len(),
                i < d,
                d == a.len() + b.len() - 1,
                av == nat_views(a@),
                bv == nat_views(b@),
                acc@ == product_limb(av.take(j as int), bv, i as int),
            decreases a.len() - j,
        {
            proof {
                let t = av.take(j + 1);
                assert(t.drop_last() =~= av.take(j as int));
                assert(t.last() == a[j as int]@);
            }
            if j <= i && i - j < b.len() {
                let term = big_mul(&a[j], &b[i - j]);
                acc = big_add(&acc, &term);
                proof {
                    assert(limb_or_zero(bv, i - j) == b[i - j]@);
                }
            } else {
                proof {
                    assert(limb_or_zero(bv, i - j) == 0);
                    assert(a[j as int]@ * 0 == 0);
                }
            }
            j = j + 1;
        }
        proof {
            assert(av.take(a.len() as int) =~= av);
        }
        product.push(acc);
        i = i + 1;
    }
    proof {
        assert(nat_views(product@) =~= product_limbs(av, bv));
    }
    product
}

/// The first `n` chunks of `x`, each of `limb_width` bits, lowest first.
pub fn split_chunks(x: &BigNat, base: &BigNat, limb_width: usize, n: usize) -> (chunks: Vec<BigNat>)
    requires
        limb_width >= 1,
        base@ == pow2(limb_width as nat),
    ensures
        chunks.len() == n,
        nat_views(chunks@) == digits(x@, n as nat, limb_width as nat),
{
    let ghost w = limb_width as nat;
    let mut chunks: Vec<BigNat> = Vec::new();
    let mut rest = x.clone();
    let mut k: usize = 0;
    proof {
        lemma_pow2_pos(w);
        assert(w * 0 == 0);
        assert(pow2(0) == 1) by {
            vstd::arithmetic::power2::lemma2_to64();
        }
    }
    while k < n
        invariant
            k <= n,
            w == limb_width as nat,
            w >= 1,
            base@ == pow2(w),
            base@ > 0,
            chunks.len() == k,
            rest@ == x@ / pow2(w * (k as nat)),
            forall|j: int| 0 <= j < k ==> (#[trigger] chunks[j])@ == digit(x@, j as nat, w),
        decreases n - k,
    {
        let chunk = big_rem(&rest, base);
        let next = big_shr(&rest, limb_width);
        proof {
            let kn = k as nat;
            lemma_pow2_pos(w * kn);
            lemma_div_denominator(x@ as int, pow2(w * kn) as int, pow2(w) as int);
            assert(w * (kn + 1) == w * kn + w) by (nonlinear_arith);
            lemma_pow2_adds(w * kn, w);
        }
        chunks.push(chunk);
        rest = next;
        k = k + 1;
    }
    proof {
        assert(nat_views(chunks@) =~= digits(x@, n as nat, w));
    }
    chunks
}

/// Replaces the limb at place `c` by the first chunk and adds each further
/// chunk to the next place up, growing the vector where a place is missing.
fn add_chunks(limbs: &mut Vec<BigNat>, c: usize, chunks: &Vec<BigNat>)
    requires
        c < old(limbs).len(),
        chunks.len() >= 1,
        c + chunks.len() <= usize::MAX,
    ensures
        nat_views(final(limbs)@) == spread(nat_views(old(limbs)@), c as int, nat_views(chunks@)),
{
    let ghost s = nat_views(limbs@);
    let ghost ch = nat_views(chunks@);
    limbs.set(c, chunks[0].clone());
    let mut j: usize = 1;
    proof {
        assert(nat_views(limbs@) =~= spread(s, c as int, ch.take(1)));
    }
    while j < chunks.len()
        invariant
            1 <= j <= chunks.len(),
            c + chunks.len() <= usize::MAX,
            c < s.len(),
            ch == nat_views(chunks@),
            nat_views(limbs@) == spread(s, c as int, ch.take(j as int)),
        decreases chunks.len() - j,
    {
        let ghost before = nat_views(limbs@);
        if limbs.len() <= c + j {
            limbs.push(chunks[j].clone());
        } else {
            let sum = big_add(&limbs[c + j], &chunks[j]);
            limbs.set(c + j, sum);
        }
        proof {
            let now = nat_views(limbs@);
            let head = ch.take(j as int);
            let next = ch.take(j + 1);
            let want = spread(s, c as int, next);
            assert(before == spread(s, c as int, head));
            assert(before.len() >= c + j);
            assert(now.len() == want.len());
            assert forall|i: int| 0 <= i < now.len() implies now[i] == want[i] by {
                if i == c + j {
                    assert(next[j as int] == ch[j as int]);
                    if before.len() == c + j {
                        assert(limb_or_zero(s, i) == 0);
                    } else {
                        assert(before[i] == s[i]);
                    }
                } else {
                    assert(now[i] == before[i]);
                    if c < i < c + j {
                        assert(next[i - c] == head[i - c]);
                    }
                }
            }
            assert(now =~= want);
        }
        j = j + 1;
    }
    proof {
        assert(ch.take(chunks.len() as int) =~= ch);
    }
}

/// Two to the 253 is below the order of the field, so a limb of at most 253
/// bits is a field element.
pub proof fn lemma_limb_fits_field(w: nat)
    requires
        w <= 253,
    ensures
        pow2(w) <= modulus(),
{
    crate::big_integer::limb_math::lemma_pow2_values();
    if w < 253 {
        vstd::arithmetic::power2::lemma_pow2_strictly_increases(w, 253);
    }
}

/// Whether a number can be written with `number_of_limbs` limbs of `bit_len`
/// bits.
pub open spec fn fits_limbs(value: nat, number_of_limbs: nat, bit_len: nat) -> bool {
    value < pow2(bit_len * number_of_limbs)
}

/// Splits a big integer into `number_of_limbs` field elements of `bit_len`
/// bits each, lowest first.
pub fn decompose_big(e: &BigNat, number_of_limbs: usize, bit_len: usize) -> (limbs: Vec<Fe>)
    requires
        1 <= bit_len <= 253,
        fits_limbs(e@, number_of_limbs as nat, bit_len as nat),
    ensures
        limbs.len() == number_of_limbs,
        fe_views(limbs@) == digits(e@, number_of_limbs as nat, bit_len as nat),
        limbs_value(fe_views(limbs@), pow2(bit_len as nat)) == e@,
{
    let ghost w = bit_len as nat;
    let one = BigNat::from_u64(1);
    let base = big_shl(&one, bit_len);
    let chunks = split_chunks(e, &base, bit_len, number_of_limbs);
    let mut limbs: Vec<Fe> = Vec::new();
    let mut i: usize = 0;
    proof {
        lemma_limb_fits_field(w);
        lemma_pow2_pos(w);
    }
    while i < number_of_limbs
        invariant
            i <= number_of_limbs,
            chunks.len() == number_of_limbs,
            w == bit_len as nat,
            pow2(w) <= modulus(),
            pow2(w) > 0,
            nat_views(chunks@) == digits(e@, number_of_limbs as nat, w),
            limbs.len() == i,
            forall|k: int| 0 <= k < i ==> (#[trigger] limbs@[k])@ == digit(e@, k as nat, w),
        decreases number_of_limbs - i,
    {
        let limb = Fe::from_big(&chunks[i]);
        proof {
            assert(chunks@[i as int]@ == nat_views(chunks@)[i as int]);
            lemma_small_mod(digit(e@, i as nat, w), modulus());
        }
        limbs.push(limb);
        i = i + 1;
    }
    proof {
        assert(fe_views(limbs@) =~= digits(e@, number_of_limbs as nat, w));
        lemma_digits_value(e@, number_of_limbs as nat, w);
        lemma_small_mod(e@, pow2(w * (number_of_limbs as nat)));
    }
    limbs
}

/// Whether a big integer can be written with `number_of_limbs` limbs of
/// `bit_len` bits.
pub fn fits_in_limbs(e: &BigNat, number_of_limbs: usize, bit_len: usize) -> (fits: bool)
    requires
        bit_len * number_of_limbs <= u64::MAX,
    ensures
        fits == fits_limbs(e@, number_of_limbs as nat, bit_len as nat),
{
    let bits = big_bits(e);
    let places: u64 = (bit_len as u64) * (number_of_limbs as u64);
    proof {
        lemma_bit_length_bounds(e@);
        if bits <= places {
            if bits < places {
                vstd::arithmetic::power2::lemma_pow2_strictly_increases(
                    bits as nat,
                    places as nat,
                );
            }
        } else {
            if e@ < pow2(places as nat) {
                lemma_bit_length_at_most(e@, places as nat);
            }
        }
    }
    bits <= places
}

impl RefreshAux {
    /// The auxiliary data for refreshing the product of an integer of
    /// `num_limbs_l` limbs and one of `num_limbs_r` limbs.
    ///
    /// The largest such product is formed limb by limb, and its carries are
    /// propagated from the lowest place up; the record keeps, for each place,
    /// the number of extra places that its limb spilled into.
    pub fn new(limb_width: usize, num_limbs_l: usize, num_limbs_r: usize) -> (aux: Self)
        requires
            refresh_aux_inputs(limb_width, num_limbs_l, num_limbs_r),
        ensures
            aux.limb_width == limb_width,
            aux.num_limbs_l == num_limbs_l,
            aux.num_limbs_r == num_limbs_r,
            counts(aux.increased_limbs_vec@) == increased_limbs(
                limb_width as nat,
                num_limbs_l as nat,
                num_limbs_r as nat,
            ),
            aux.increased_limbs_vec@.len() == num_limbs_l + num_limbs_r,
            counts_in_range(counts(aux.increased_limbs_vec@)),
    {
        let ghost w = limb_width as nat;
        let ghost l = num_limbs_l as nat;
        let ghost r = num_limbs_r as nat;
        let ghost raw = max_product_limbs(w, l, r);
        let one = BigNat::from_u64(1);
        let base = big_shl(&one, limb_width);
        proof {
            lemma_pow2_pos(w);
        }
        let max = big_sub(&base, &one);
        let l_max = repeat_limb(&max, num_limbs_l);
        let r_max = repeat_limb(&max, num_limbs_r);
        let d: usize = num_limbs_l + num_limbs_r - 1;
        let mut muled = schoolbook_product(&l_max, &r_max);
        proof {
            let a = constant_limbs(l, max_limb(w));
            let b = constant_limbs(r, max_limb(w));
            assert(nat_views(l_max@) =~= a);
            assert(nat_views(r_max@) =~= b);
            assert(product_limbs(a, b) =~= raw) by {
                assert forall|i: int| 0 <= i < l + r - 1 implies product_limb(a, b, i)
                    == pair_count(l, r, i) * max_limb(w) * max_limb(w) by {
                    lemma_max_product_limb(max_limb(w), l, r, i);
                }
            }
            lemma_max_product_bounds(w, l, r);
            assert forall|i: int| 0 <= i < d implies raw[i] > 0 by {
                let m = max_limb(w);
                let p = pair_count(l, r, i);
                assert(p >= 1);
                assert(p * m * m > 0) by (nonlinear_arith)
                    requires
                        p >= 1,
                        m >= 1,
                ;
            }
        }
        let ghost total = limbs_value(raw, pow2(w));
        let mut increased_limbs_vec: Vec<usize> = Vec::new();
        let mut cur_d: usize = 0;
        while cur_d <= d
            invariant
                cur_d <= d + 1,
                d == num_limbs_l + num_limbs_r - 1,
                d < usize::MAX,
                w == limb_width as nat,
                l == num_limbs_l as nat,
                r == num_limbs_r as nat,
                w >= 1,
                raw == max_product_limbs(w, l, r),
                total == limbs_value(raw, pow2(w)),
                base@ == pow2(w),
                base@ > 1,
                pow(base@ as int, d as nat) <= total,
                total < pow(base@ as int, (d + 1) as nat),
                d <= muled.len() <= d + 1,
                nat_views(muled@) == settled(raw, cur_d as nat, w),
                limbs_value(nat_views(muled@), base@) == total,
                forall|i: int| 0 <= i < cur_d && i < muled.len() ==> nat_views(muled@)[i] < base@,
                forall|i: int| cur_d <= i < d ==> nat_views(muled@)[i] > 0,
                increased_limbs_vec.len() == cur_d,
                forall|k: int| 0 <= k < cur_d ==> k + (#[trigger] increased_limbs_vec[k]) <= d,
                forall|k: int|
                    0 <= k < cur_d ==> (#[trigger] increased_limbs_vec[k]) as nat == (chunk_count(
                        settled(raw, k as nat, w)[k],
                        w,
                    ) - 1) as nat,
            decreases d + 1 - cur_d,
        {
            let ghost s = nat_views(muled@);
            let ghost places = (d + 1 - cur_d) as nat;
            proof {
                lemma_next_limb(s, cur_d as nat, d as nat, base@, total);
                lemma_pow2_mul(w, places);
                lemma_chunk_count(s[cur_d as int], w, places);
            }
            let x = muled[cur_d].clone();
            let bits: u64 = big_bits(&x);
            let width: u64 = limb_width as u64;
            let num_chunks: usize = if bits % width == 0 {
                (bits / width) as usize
            } else {
                (bits / width + 1) as usize
            };
            assert(num_chunks as nat == chunk_count(x@, w));
            increased_limbs_vec.push(num_chunks - 1);
            let chunks = split_chunks(&x, &base, limb_width, num_chunks);
            add_chunks(&mut muled, cur_d, &chunks);
            proof {
                let n = num_chunks as nat;
                let after = nat_views(muled@);
                assert(after == settle(s, cur_d as int, w));
                assert(settled(raw, (cur_d + 1) as nat, w) == settle(
                    settled(raw, cur_d as nat, w),
                    cur_d as int,
                    w,
                ));
                lemma_spread_value(s, cur_d as int, digits(x@, n, w), base@);
                lemma_digits_value(x@, n, w);
                lemma_small_mod(x@, pow2(w * n));
                assert(limbs_value(after, base@) == total);
                assert(after[cur_d as int] == digit(x@, 0, w));
                assert forall|i: int| cur_d + 1 <= i < d implies after[i] > 0 by {
                    assert(s[i] > 0);
                }
            }
            cur_d = cur_d + 1;
        }
        proof {
            assert(counts(increased_limbs_vec@) =~= increased_limbs(w, l, r));
            assert forall|i: int|
                0 <= i < counts(increased_limbs_vec@).len() implies i + #[trigger] counts(
                increased_limbs_vec@,
            )[i] < counts(increased_limbs_vec@).len() by {
                assert(i + increased_limbs_vec[i] <= d);
            }
        }
        RefreshAux { limb_width, num_limbs_l, num_limbs_r, increased_limbs_vec }
    }
}

/// A vector of `n` limbs that all hold `limb`.
fn repeat_limb(limb: &BigNat, n: usize) -> (v: Vec<BigNat>)
    ensures
        v.len() == n,
        nat_views(v@) == constant_limbs(n as nat, limb@),
{
    let mut v: Vec<BigNat> = Vec::new();
    let mut i: usize = 0;
    while i < n
        invariant
            i <= n,
            v.len() == i,
            forall|k: int| 0 <= k < i ==> (#[trigger] v[k])@ == limb@,
        decreases n - i,
    {
        v.push(limb.clone());
        i = i + 1;
    }
    proof {
        assert(nat_views(v@) =~= constant_limbs(n as nat, limb@));
    }
    v
}

/// The overflow counts do not depend on the order of the two limb counts.
pub proof fn lemma_refresh_aux_symmetric(w: nat, l: nat, r: nat)
    ensures
        increased_limbs(w, l, r) == increased_limbs(w, r, l),
{
    assert(max_product_limbs(w, l, r) =~= max_product_limbs(w, r, l));
    assert(increased_limbs(w, l, r) =~= increased_limbs(w, r, l));
}

} // verus!
