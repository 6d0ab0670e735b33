//! The big-integer gadgets on witness values: range-checked assignment,
//! schoolbook multiplication, refreshing a product by carry propagation, and
//! squaring under a modulus.

use crate::big_integer::carry::{digits, lemma_digits_value, lemma_spread_value, spread};
use crate::big_integer::integer::{AssignedInteger, UnassignedInteger};
use crate::big_integer::limb_math::{
    constant_limbs, lemma_pow2_mul, lemma_product_value, lemma_value_bound, limbs_value,
    product_limb, product_limbs,
};
use crate::big_integer::{
    counts, counts_in_range, decompose_big, increased_limbs, fits_in_limbs, lemma_limb_fits_field, nat_views,
    schoolbook_product, split_chunks, Fresh, Muled, RefreshAux,
};
use crate::bigint::{big_rem, big_shl, BigNat, MAX_SHIFT};
use crate::encryptor::grain::fe_views;
use crate::field::{modulus, Fe};
use vstd::arithmetic::div_mod::lemma_small_mod;
use vstd::arithmetic::power2::{lemma_pow2_pos, pow2};
use vstd::prelude::*;

verus! {

/// Whether every limb is below two to the `w`.
pub open spec fn is_fresh(limbs: Seq<nat>, w: nat) -> bool {
    forall|i: int| 0 <= i < limbs.len() ==> #[trigger] limbs[i] < pow2(w)
}

/// The limbs that multiplication gives: the schoolbook product, each limb
/// reduced into the field.
pub open spec fn multiplied(a: Seq<nat>, b: Seq<nat>) -> Seq<nat> {
    Seq::new((a.len() + b.len() - 1) as nat, |i: int| product_limb(a, b, i) % modulus())
}

/// Whether limbs of `w` bits, `l` to an integer, can be multiplied and
/// refreshed without any sum leaving the field.
pub open spec fn fits_field(w: nat, l: nat) -> bool {
    l * (pow2(w) * pow2(w)) + 2 * l * pow2(w) < modulus()
}

/// Carry propagation from place `c` on, with a fixed number of chunks for
/// each place: the limb at each place is split into one chunk more than the
/// count for the place, and the chunks are spread upwards. There is no result
/// when a limb does not fit its chunks.
pub open spec fn refresh_from(s: Seq<nat>, counts: Seq<nat>, c: nat, w: nat) -> Option<Seq<nat>>
    decreases counts.len() - c,
{
    if c >= counts.len() {
        Some(s)
    } else if s[c as int] >= pow2(w * (counts[c as int] + 1)) {
        None
    } else {
        refresh_from(
            spread(s, c as int, digits(s[c as int], counts[c as int] + 1, w)),
            counts,
            c + 1,
            w,
        )
    }
}

/// The product limbs padded with zeros to one limb for each count, and then
/// refreshed.
pub open spec fn refreshed(m: Seq<nat>, counts: Seq<nat>, w: nat) -> Option<Seq<nat>> {
    refresh_from(m + constant_limbs((counts.len() - m.len()) as nat, 0), counts, 0, w)
}

/// A limb of the product of two integers is at most as many products of two
/// limbs as the first integer has limbs.
pub proof fn lemma_product_limb_bound(a: Seq<nat>, b: Seq<nat>, i: int, bound: nat)
    requires
        forall|j: int| 0 <= j < a.len() ==> #[trigger] a[j] <= bound,
        forall|j: int| 0 <= j < b.len() ==> #[trigger] b[j] <= bound,
    ensures
        product_limb(a, b, i) <= a.len() * (bound * bound),
    decreases a.len(),
{
    if a.len() > 0 {
        let head = a.drop_last();
        lemma_product_limb_bound(head, b, i, bound);
        let k = i - (a.len() - 1);
        let y = crate::big_integer::limb_math::limb_or_zero(b, k);
        let x = a.last();
        assert(x * y <= bound * bound) by (nonlinear_arith)
            requires
                x <= bound,
                y <= bound,
        ;
        assert(a.len() * (bound * bound) == head.len() * (bound * bound) + bound * bound)
            by (nonlinear_arith)
            requires
                a.len() == head.len() + 1,
        ;
    } else {
        assert(0 * (bound * bound) == 0);
    }
}

/// The product of two fresh integers that fit the field is the schoolbook
/// product itself: no limb is reduced.
pub proof fn lemma_multiplied_fresh(a: Seq<nat>, b: Seq<nat>, w: nat)
    requires
        is_fresh(a, w),
        is_fresh(b, w),
        a.len() >= 1,
        b.len() >= 1,
        fits_field(w, a.len()),
    ensures
        multiplied(a, b) == product_limbs(a, b),
        limbs_value(multiplied(a, b), pow2(w)) == limbs_value(a, pow2(w)) * limbs_value(
            b,
            pow2(w),
        ),
        forall|i: int|
            0 <= i < multiplied(a, b).len() ==> #[trigger] multiplied(a, b)[i] <= a.len() * (pow2(
                w,
            ) * pow2(w)),
{
    let base = pow2(w);
    assert forall|i: int| 0 <= i < a.len() + b.len() - 1 implies product_limb(a, b, i)
        % modulus() == product_limb(a, b, i) && product_limb(a, b, i) <= a.len() * (base
        * base) by {
        lemma_product_limb_bound(a, b, i, base);
        assert(2 * a.len() * base >= 0) by (nonlinear_arith)
            requires
                base >= 0,
        ;
        lemma_small_mod(product_limb(a, b, i), modulus());
    }
    assert(multiplied(a, b) =~= product_limbs(a, b));
    lemma_product_value(a, b, base);
}

/// When refreshing succeeds, the result is fresh and spells the same
/// integer.
pub proof fn lemma_refresh_from(s: Seq<nat>, counts: Seq<nat>, c: nat, w: nat)
    requires
        w >= 1,
        s.len() == counts.len(),
        counts_in_range(counts),
        forall|i: int| 0 <= i < c && i < s.len() ==> #[trigger] s[i] < pow2(w),
        refresh_from(s, counts, c, w) is Some,
    ensures
        refresh_from(s, counts, c, w)->0.len() == s.len(),
        is_fresh(refresh_from(s, counts, c, w)->0, w),
        limbs_value(refresh_from(s, counts, c, w)->0, pow2(w)) == limbs_value(s, pow2(w)),
    decreases counts.len() - c,
{
    if c < counts.len() {
        let n = counts[c as int] + 1;
        let x = s[c as int];
        let next = spread(s, c as int, digits(x, n, w));
        lemma_pow2_pos(w);
        lemma_spread_value(s, c as int, digits(x, n, w), pow2(w));
        lemma_digits_value(x, n, w);
        lemma_small_mod(x, pow2(w * n));
        assert(next.len() == s.len());
        assert(next[c as int] == digits(x, n, w)[0]);
        assert forall|i: int| 0 <= i < c + 1 && i < next.len() implies #[trigger] next[i] < pow2(
            w,
        ) by {
            if i < c {
                assert(next[i] == s[i]);
            }
        }
        lemma_refresh_from(next, counts, c + 1, w);
    }
}

/// Refreshing limbs that are fresh already changes nothing.
pub proof fn lemma_refresh_of_fresh(s: Seq<nat>, counts: Seq<nat>, c: nat, w: nat)
    requires
        w >= 1,
        s.len() == counts.len(),
        counts_in_range(counts),
        is_fresh(s, w),
    ensures
        refresh_from(s, counts, c, w) == Some(s),
    decreases counts.len() - c,
{
    if c < counts.len() {
        let n = counts[c as int] + 1;
        let x = s[c as int];
        let ds = digits(x, n, w);
        lemma_pow2_pos(w);
        assert(w * n >= w) by (nonlinear_arith)
            requires
                n >= 1,
                w >= 1,
        ;
        if w * n > w {
            vstd::arithmetic::power2::lemma_pow2_strictly_increases(w, w * n);
        }
        let next = spread(s, c as int, ds);
        assert forall|i: int| 0 <= i < s.len() implies next[i] == s[i] by {
            if c <= i < c + n {
                let j = (i - c) as nat;
                lemma_pow2_pos(w * j);
                if j == 0 {
                    assert(w * 0 == 0);
                    assert(pow2(0) == 1) by {
                        vstd::arithmetic::power2::lemma2_to64();
                    }
                    lemma_small_mod(x, pow2(w));
                } else {
                    assert(w * j >= w) by (nonlinear_arith)
                        requires
                            j >= 1,
                            w >= 1,
                    ;
                    if w * j > w {
                        vstd::arithmetic::power2::lemma_pow2_strictly_increases(w, w * j);
                    }
                    vstd::arithmetic::div_mod::lemma_basic_div(x as int, pow2(w * j) as int);
                    lemma_small_mod(0, pow2(w));
                }
            }
        }
        assert(next =~= s);
        lemma_refresh_of_fresh(s, counts, c + 1, w);
    }
}

/// The gadgets for integers of `num_limbs` limbs of `limb_width` bits.
#[derive(Clone, Copy, Debug)]
pub struct BigIntChip {
    pub limb_width: usize,
    pub num_limbs: usize,
}

impl BigIntChip {
    /// The gadgets for integers of `bits_len` bits in limbs of `limb_width`
    /// bits.
    pub fn new(limb_width: usize, bits_len: usize) -> (chip: Self)
        requires
            limb_width >= 1,
            bits_len % limb_width == 0,
        ensures
            chip.limb_width == limb_width,
            chip.num_limbs == bits_len / limb_width,
    {
        BigIntChip { limb_width, num_limbs: bits_len / limb_width }
    }

    /// Takes an integer into the circuit, if its limbs are known, are as
    /// many as the chip expects, and are each in range.
    pub fn assign_integer(&self, integer: &UnassignedInteger) -> (assigned: Option<
        AssignedInteger<Fresh>,
    >)
        requires
            self.limb_width >= 1,
        ensures
            assigned is Some <==> (integer.value matches Some(v) && v.len() == self.num_limbs
                && is_fresh(fe_views(v@), self.limb_width as nat)),
            assigned matches Some(a) ==> a@ == fe_views(integer.value->0@),
    {
        let values = match &integer.value {
            None => {
                return None;
            },
            Some(values) => values,
        };
        if values.len() != self.num_limbs {
            return None;
        }
        let mut i: usize = 0;
        while i < values.len()
            invariant
                i <= values.len(),
                self.limb_width >= 1,
                values.len() == self.num_limbs,
                integer.value is Some,
                integer.value->0 == *values,
                forall|k: int|
                    0 <= k < i ==> (#[trigger] fe_views(values@)[k]) < pow2(
                        self.limb_width as nat,
                    ),
            decreases values.len() - i,
        {
            let limb = values[i].to_big();
            proof {
                assert((self.limb_width as nat) * 1 == self.limb_width as nat);
                assert(fe_views(values@)[i as int] == values@[i as int]@);
            }
            if !fits_in_limbs(&limb, 1, self.limb_width) {
                proof {
                    assert(!(fe_views(values@)[i as int] < pow2(self.limb_width as nat)));
                    assert(!is_fresh(fe_views(values@), self.limb_width as nat));
                }
                return None;
            }
            i = i + 1;
        }
        Some(AssignedInteger::from_values(values.as_slice()))
    }

    /// The schoolbook product of two integers. Its limbs are sums of
    /// products in the field.
    pub fn mul(&self, a: &AssignedInteger<Fresh>, b: &AssignedInteger<Fresh>) -> (product:
        AssignedInteger<Muled>)
        requires
            a@.len() >= 1,
            b@.len() >= 1,
            a@.len() + b@.len() <= usize::MAX,
        ensures
            product@ == multiplied(a@, b@),
    {
        let a_big = Self::limbs_to_big(a);
        let b_big = Self::limbs_to_big(b);
        let raw = schoolbook_product(&a_big, &b_big);
        let mut values: Vec<Fe> = Vec::new();
        let mut i: usize = 0;
        proof {
            assert(raw@.len() == nat_views(raw@).len());
        }
        while i < raw.len()
            invariant
                i <= raw.len(),
                raw.len() == a@.len() + b@.len() - 1,
                nat_views(raw@) == product_limbs(a@, b@),
                values.len() == i,
                forall|k: int|
                    0 <= k < i ==> (#[trigger] values@[k])@ == product_limb(a@, b@, k)
                        % modulus(),
            decreases raw.len() - i,
        {
            proof {
                assert(raw@[i as int]@ == nat_views(raw@)[i as int]);
            }
            values.push(Fe::from_big(&raw[i]));
            i = i + 1;
        }
        proof {
            assert(fe_views(values@) =~= multiplied(a@, b@));
        }
        AssignedInteger::from_values(values.as_slice())
    }

    /// The limb values of an integer as big integers.
    fn limbs_to_big(a: &AssignedInteger<Fresh>) -> (values: Vec<BigNat>)
        ensures
            nat_views(values@) == a@,
            values.len() == a@.len(),
    {
        let mut values: Vec<BigNat> = Vec::new();
        let mut i: usize = 0;
        while i < a.num_limbs()
            invariant
                i <= a@.len(),
                values.len() == i,
                forall|k: int| 0 <= k < i ==> (#[trigger] values@[k])@ == a@[k],
            decreases a@.len() - i,
        {
            values.push(a.limb(i).to_big());
            i = i + 1;
        }
        proof {
            assert(nat_views(values@) =~= a@);
        }
        values
    }

    /// Refreshes a product: each limb is split into the chunks that the
    /// auxiliary data allots to its place, and the chunks above the first are
    /// carried into the places above. Fails when a limb does not fit its
    /// chunks.
    pub fn refresh(&self, a: &AssignedInteger<Muled>, aux: &RefreshAux) -> (fresh: Option<
        AssignedInteger<Fresh>,
    >)
        requires
            1 <= self.limb_width <= 253,
            aux.limb_width == self.limb_width,
            1 <= a@.len() <= aux.increased_limbs_vec@.len(),
            counts_in_range(counts(aux.increased_limbs_vec@)),
            self.limb_width * (aux.increased_limbs_vec@.len() + 1) <= usize::MAX,
            forall|i: int|
                0 <= i < a@.len() ==> #[trigger] a@[i] + aux.increased_limbs_vec@.len() * pow2(
                    self.limb_width as nat,
                ) < modulus(),
        ensures
            fresh is Some <==> refreshed(
                a@,
                counts(aux.increased_limbs_vec@),
                self.limb_width as nat,
            ) is Some,
            fresh matches Some(f) ==> Some(f@) == refreshed(
                a@,
                counts(aux.increased_limbs_vec@),
                self.limb_width as nat,
            ) && is_fresh(f@, self.limb_width as nat) && f@.len()
                == aux.increased_limbs_vec@.len() && limbs_value(f@, pow2(self.limb_width as nat))
                == limbs_value(a@, pow2(self.limb_width as nat)),
    {
        let ghost w = self.limb_width as nat;
        let ghost cs = counts(aux.increased_limbs_vec@);
        let len = aux.increased_limbs_vec.len();
        let ghost start = a@ + constant_limbs((len - a@.len()) as nat, 0);
        let one = BigNat::from_u64(1);
        let base = big_shl(&one, self.limb_width);
        let zero = Fe::zero();
        let mut cur: Vec<Fe> = Vec::new();
        let mut k: usize = 0;
        while k < len
            invariant
                k <= len,
                len == aux.increased_limbs_vec@.len(),
                a@.len() <= len,
                zero@ == 0,
                start == a@ + constant_limbs((len - a@.len()) as nat, 0),
                cur.len() == k,
                forall|i: int| 0 <= i < k ==> (#[trigger] cur@[i])@ == start[i],
            decreases len - k,
        {
            if k < a.num_limbs() {
                cur.push(a.limb(k));
            } else {
                cur.push(zero);
            }
            k = k + 1;
        }
        proof {
            assert(fe_views(cur@) =~= start);
            lemma_pow2_pos(w);
            lemma_limb_fits_field(w);
            assert(cs.len() == len);
            assert forall|i: int| 0 <= i < len implies #[trigger] start[i] + len * pow2(w)
                < modulus() by {
                if i >= a@.len() {
                    assert(start[i] == 0);
                    assert(a@[0] + len * pow2(w) < modulus());
                } else {
                    assert(start[i] == a@[i]);
                }
            }
        }
        let mut c: usize = 0;
        while c < len
            invariant
                c <= len,
                len == aux.increased_limbs_vec@.len(),
                cur.len() == len,
                cs == counts(aux.increased_limbs_vec@),
                cs.len() == len,
                counts_in_range(cs),
                w == self.limb_width as nat,
                1 <= w <= 253,
                self.limb_width * (len + 1) <= usize::MAX,
                base@ == pow2(w),
                pow2(w) > 0,
                pow2(w) <= modulus(),
                start == a@ + constant_limbs((len - a@.len()) as nat, 0),
                refresh_from(fe_views(cur@), cs, c as nat, w) == refresh_from(start, cs, 0, w),
                forall|i: int|
                    c <= i < len ==> (#[trigger] fe_views(cur@)[i]) + (len - c) * pow2(w)
                        < modulus(),
            decreases len - c,
        {
            let ghost s = fe_views(cur@);
            let n: usize = aux.increased_limbs_vec[c] + 1;
            proof {
                assert(cs[c as int] == aux.increased_limbs_vec@[c as int]);
                assert(c + cs[c as int] < len);
                assert(self.limb_width * n <= self.limb_width * (len + 1)) by (nonlinear_arith)
                    requires
                        n <= len + 1,
                ;
                assert(s[c as int] == cur@[c as int]@);
            }
            let x = cur[c].to_big();
            if !fits_in_limbs(&x, n, self.limb_width) {
                proof {
                    assert(w * (cs[c as int] + 1) == (self.limb_width as nat) * (n as nat));
                    assert(refresh_from(s, cs, c as nat, w) is None);
                }
                return None;
            }
            proof {
                assert(w * (cs[c as int] + 1) == (self.limb_width as nat) * (n as nat));
            }
            let chunks = split_chunks(&x, &base, self.limb_width, n);
            let ghost ds = digits(x@, n as nat, w);
            let first = Fe::from_big(&chunks[0]);
            proof {
                assert(chunks@[0]@ == nat_views(chunks@)[0]);
                lemma_small_mod(ds[0], modulus());
            }
            cur.set(c, first);
            let mut j: usize = 1;
            proof {
                assert(fe_views(cur@) =~= spread(s, c as int, ds.take(1)));
            }
            while j < n
                invariant
                    1 <= j <= n,
                    c + n <= len,
                    c < len,
                    cur.len() == len,
                    s.len() == len,
                    chunks.len() == n,
                    ds == digits(x@, n as nat, w),
                    nat_views(chunks@) == ds,
                    pow2(w) > 0,
                    pow2(w) <= modulus(),
                    w >= 1,
                    forall|i: int|
                        c <= i < len ==> (#[trigger] s[i]) + (len - c) * pow2(w) < modulus(),
                    fe_views(cur@) == spread(s, c as int, ds.take(j as int)),
                decreases n - j,
            {
                let ghost before = fe_views(cur@);
                let chunk = Fe::from_big(&chunks[j]);
                proof {
                    assert(chunks@[j as int]@ == ds[j as int]);
                    lemma_small_mod(ds[j as int], modulus());
                    assert(before[c + j] == s[c + j]);
                    assert(cur@[c + j]@ == before[c + j]);
                    assert(ds[j as int] < pow2(w));
                    assert((len - c) * pow2(w) >= pow2(w)) by (nonlinear_arith)
                        requires
                            len - c >= 1,
                            pow2(w) > 0,
                    ;
                    lemma_small_mod(s[c + j] + ds[j as int], modulus());
                }
                let sum = cur[c + j].add(&chunk);
                cur.set(c + j, sum);
                proof {
                    let now = fe_views(cur@);
                    let want = spread(s, c as int, ds.take(j + 1));
                    assert forall|i: int| 0 <= i < len implies now[i] == want[i] by {
                        if i == c + j {
                            assert(ds.take(j + 1)[j as int] == ds[j as int]);
                        } else {
                            assert(now[i] == before[i]);
                            if c < i < c + j {
                                assert(ds.take(j + 1)[i - c] == ds.take(j as int)[i - c]);
                            }
                        }
                    }
                    assert(now =~= want);
                }
                j = j + 1;
            }
            proof {
                assert(ds.take(n as int) =~= ds);
                let next = fe_views(cur@);
                assert(refresh_from(s, cs, c as nat, w) == refresh_from(
                    next,
                    cs,
                    (c + 1) as nat,
                    w,
                ));
                assert forall|i: int| c + 1 <= i < len implies (#[trigger] next[i]) + (len - (c
                    + 1)) * pow2(w) < modulus() by {
                    assert(s[i] + (len - c) * pow2(w) < modulus());
                    if i < c + n {
                        assert(ds[i - c] < pow2(w));
                    }
                    assert((len - c) * pow2(w) == (len - (c + 1)) * pow2(w) + pow2(w))
                        by (nonlinear_arith);
                }
            }
            c = c + 1;
        }
        proof {
            let done = fe_views(cur@);
            assert(refresh_from(done, cs, len as nat, w) == Some(done));
            lemma_refresh_from(start, cs, 0, w);
            crate::big_integer::limb_math::lemma_value_split(start, a@.len(), pow2(w));
            assert(start.take(a@.len() as int) =~= a@);
            crate::big_integer::limb_math::lemma_value_zeros(
                start.skip(a@.len() as int),
                pow2(w),
            );
            assert(vstd::arithmetic::power::pow(pow2(w) as int, a@.len()) * 0 == 0);
        }
        Some(AssignedInteger::from_values(cur.as_slice()))
    }

    /// The square of `a` reduced by `n`: `a` is multiplied by itself, the
    /// product is refreshed, and the refreshed integer is divided by `n`; the
    /// remainder is the result, in as many limbs as `n` has. Fails when the
    /// product cannot be refreshed, which does not happen where limbs have two
    /// bits or more and a limb can count the limbs.
    pub fn square_mod(&self, a: &AssignedInteger<Fresh>, n: &AssignedInteger<Fresh>) -> (square:
        Option<AssignedInteger<Fresh>>)
        requires
            1 <= self.limb_width <= 253,
            a@.len() >= 1,
            self.limb_width >= 2 || a@.len() >= 2,
            self.limb_width * (2 * a@.len() + 1) <= MAX_SHIFT,
            self.limb_width * n@.len() <= MAX_SHIFT,
            n@.len() >= 1,
            is_fresh(a@, self.limb_width as nat),
            is_fresh(n@, self.limb_width as nat),
            fits_field(self.limb_width as nat, a@.len()),
            limbs_value(n@, pow2(self.limb_width as nat)) > 0,
        ensures
            square is Some <==> refreshed(
                product_limbs(a@, a@),
                increased_limbs(self.limb_width as nat, a@.len(), a@.len()),
                self.limb_width as nat,
            ) is Some,
            self.limb_width >= 2 && a@.len() <= pow2(self.limb_width as nat) ==> square is Some,
            square matches Some(r) ==> r@ == digits(
                ((limbs_value(a@, pow2(self.limb_width as nat)) * limbs_value(
                    a@,
                    pow2(self.limb_width as nat),
                )) % limbs_value(n@, pow2(self.limb_width as nat))) as nat,
                n@.len(),
                self.limb_width as nat,
            ) && r@.len() == n@.len() && is_fresh(r@, self.limb_width as nat) && limbs_value(
                r@,
                pow2(self.limb_width as nat),
            ) == (limbs_value(
                a@,
                pow2(self.limb_width as nat),
            ) * limbs_value(a@, pow2(self.limb_width as nat))) % limbs_value(
                n@,
                pow2(self.limb_width as nat),
            ),
    {
        let ghost w = self.limb_width as nat;
        let ghost base = pow2(w);
        let l = a.num_limbs();
        assert(2 * l <= MAX_SHIFT) by (nonlinear_arith)
            requires
                self.limb_width * (2 * l + 1) <= MAX_SHIFT,
                self.limb_width >= 1,
        ;
        let product = self.mul(a, a);
        let aux = RefreshAux::new(self.limb_width, l, l);
        proof {
            lemma_multiplied_fresh(a@, a@, w);
            lemma_pow2_pos(w);
            let len = aux.increased_limbs_vec@.len();
            assert(len == 2 * l);
            assert forall|i: int| 0 <= i < product@.len() implies #[trigger] product@[i] + len
                * base < modulus() by {
                assert(product@[i] <= l * (base * base));
                assert(len * base == 2 * l * base) by (nonlinear_arith)
                    requires
                        len == 2 * l,
                ;
            }
        }
        proof {
            if self.limb_width >= 2 && l <= pow2(w) {
                crate::big_integer::refresh_laws::lemma_product_refreshes(a@, a@, w);
            }
        }
        let refreshed = match self.refresh(&product, &aux) {
            None => {
                return None;
            },
            Some(refreshed) => refreshed,
        };
        assert(self.limb_width * (2 * l) <= MAX_SHIFT) by (nonlinear_arith)
            requires
                self.limb_width * (2 * l + 1) <= MAX_SHIFT,
        ;
        let x = refreshed.to_big_uint(self.limb_width);
        let modulus_value = n.to_big_uint(self.limb_width);
        let remainder = big_rem(&x, &modulus_value);
        proof {
            lemma_value_bound(n@, base);
            lemma_pow2_mul(w, n@.len());
        }
        let limbs = decompose_big(&remainder, n.num_limbs(), self.limb_width);
        proof {
            assert forall|i: int| 0 <= i < limbs@.len() implies #[trigger] fe_views(limbs@)[i]
                < base by {
            }
        }
        Some(AssignedInteger::from_values(limbs.as_slice()))
    }
}

} // verus!
