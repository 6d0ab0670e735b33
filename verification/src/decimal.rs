//! Numbers in decimal, and lists of them joined by commas: the form in which
//! a cipher text travels.

use crate::bigint::BigNat;
use num_bigint::BigUint;
use vstd::prelude::*;

verus! {

/// The byte of the comma.
pub const COMMA: u8 = 44;

/// Whether a byte is an ASCII digit.
pub open spec fn is_digit(b: u8) -> bool {
    48 <= b <= 57
}

/// Whether bytes are a decimal number: one digit or more, and nothing else.
pub open spec fn is_decimal(s: Seq<u8>) -> bool {
    s.len() > 0 && forall|i: int| 0 <= i < s.len() ==> is_digit(#[trigger] s[i])
}

/// The number that decimal digits spell.
pub open spec fn decimal_value(s: Seq<u8>) -> nat
    decreases s.len(),
{
    if s.len() == 0 {
        0
    } else {
        (10 * decimal_value(s.drop_last()) + (s.last() - 48)) as nat
    }
}

/// The decimal digits of a number, with no leading zero but for zero itself.
pub open spec fn decimal_repr(n: nat) -> Seq<u8>
    decreases n,
{
    if n < 10 {
        seq![(48 + n) as u8]
    } else {
        decimal_repr(n / 10).push((48 + n % 10) as u8)
    }
}

/// The pieces of a byte string between its commas. A string without a comma
/// is one piece; a comma at either end bounds an empty piece.
pub open spec fn tokens(s: Seq<u8>) -> Seq<Seq<u8>>
    decreases s.len(),
{
    if s.len() == 0 {
        seq![Seq::<u8>::empty()]
    } else {
        let before = tokens(s.drop_last());
        if s.last() == COMMA {
            before.push(Seq::<u8>::empty())
        } else {
            before.update(before.len() - 1, before.last().push(s.last()))
        }
    }
}

/// Pieces joined by commas.
pub open spec fn joined(pieces: Seq<Seq<u8>>) -> Seq<u8>
    decreases pieces.len(),
{
    if pieces.len() == 0 {
        Seq::empty()
    } else if pieces.len() == 1 {
        pieces[0]
    } else {
        joined(pieces.drop_last()) + seq![COMMA] + pieces.last()
    }
}

/// Whether a piece holds no comma.
pub open spec fn comma_free(piece: Seq<u8>) -> bool {
    forall|i: int| 0 <= i < piece.len() ==> #[trigger] piece[i] != COMMA
}

/// There is always at least one piece.
pub proof fn lemma_tokens_nonempty(s: Seq<u8>)
    ensures
        tokens(s).len() >= 1,
    decreases s.len(),
{
    if s.len() > 0 {
        lemma_tokens_nonempty(s.drop_last());
    }
}

/// The decimal digits of a number are a decimal number that spells it.
pub proof fn lemma_decimal_repr(n: nat)
    ensures
        is_decimal(decimal_repr(n)),
        decimal_value(decimal_repr(n)) == n,
    decreases n,
{
    let s = decimal_repr(n);
    if n < 10 {
        assert(s.drop_last() =~= Seq::<u8>::empty());
        assert(decimal_value(s.drop_last()) == 0);
    } else {
        lemma_decimal_repr(n / 10);
        assert(s.drop_last() =~= decimal_repr(n / 10));
    }
}

/// Appending bytes without a comma to a string appends them to its last
/// piece.
pub proof fn lemma_tokens_append(s: Seq<u8>, t: Seq<u8>)
    requires
        comma_free(t),
    ensures
        tokens(s + t) == tokens(s).update(tokens(s).len() - 1, tokens(s).last() + t),
    decreases t.len(),
{
    lemma_tokens_nonempty(s);
    let ts = tokens(s);
    if t.len() == 0 {
        assert(s + t =~= s);
        assert(ts.last() + t =~= ts.last());
        assert(ts.update(ts.len() - 1, ts.last()) =~= ts);
    } else {
        let t1 = t.drop_last();
        lemma_tokens_append(s, t1);
        assert((s + t).drop_last() =~= s + t1);
        assert((s + t).last() == t.last());
        let mid = tokens(s + t1);
        assert(mid.last().push(t.last()) =~= ts.last() + t);
        assert(mid.update(mid.len() - 1, mid.last().push(t.last())) =~= ts.update(
            ts.len() - 1,
            ts.last() + t,
        ));
    }
}

/// The pieces of joined pieces are the pieces, when none holds a comma.
pub proof fn lemma_tokens_joined(pieces: Seq<Seq<u8>>)
    requires
        pieces.len() >= 1,
        forall|k: int| 0 <= k < pieces.len() ==> comma_free(#[trigger] pieces[k]),
    ensures
        tokens(joined(pieces)) == pieces,
    decreases pieces.len(),
{
    if pieces.len() == 1 {
        let p = pieces[0];
        lemma_tokens_append(Seq::<u8>::empty(), p);
        assert(Seq::<u8>::empty() + p =~= p);
        assert(tokens(Seq::<u8>::empty()) =~= seq![Seq::<u8>::empty()]);
        assert(tokens(p) =~= pieces);
    } else {
        let head = pieces.drop_last();
        let last = pieces.last();
        lemma_tokens_joined(head);
        let a = joined(head);
        let b = a + seq![COMMA];
        assert(b.drop_last() =~= a);
        assert(tokens(b) == tokens(a).push(Seq::<u8>::empty()));
        lemma_tokens_append(b, last);
        assert(Seq::<u8>::empty() + last =~= last);
        assert(tokens(b + last) =~= pieces);
    }
}

/// `BigUint::parse_bytes` in radix ten, on digits alone: the number that the
/// digits spell.
#[verifier::external_body]
pub(crate) fn big_parse_decimal(digits: &[u8]) -> (r: BigNat)
    requires
        is_decimal(digits@),
    ensures
        r@ == decimal_value(digits@),
{
    BigNat { bytes: BigUint::parse_bytes(digits, 10).unwrap().to_bytes_le() }
}

/// `BigUint`'s `to_string`: the decimal digits of the number.
#[verifier::external_body]
pub(crate) fn big_to_decimal(a: &BigNat) -> (r: Vec<u8>)
    ensures
        r@ == decimal_repr(a@),
{
    BigUint::from_bytes_le(&a.bytes).to_string().into_bytes()
}

/// Whether bytes are a decimal number.
pub fn check_decimal(s: &[u8]) -> (ok: bool)
    ensures
        ok == is_decimal(s@),
{
    if s.len() == 0 {
        return false;
    }
    let mut i: usize = 0;
    while i < s.len()
        invariant
            i <= s.len(),
            forall|k: int| 0 <= k < i ==> is_digit(#[trigger] s@[k]),
        decreases s.len() - i,
    {
        if s[i] < 48 || s[i] > 57 {
            return false;
        }
        i = i + 1;
    }
    true
}

/// The number that decimal digits spell, if the bytes are a decimal number.
pub fn parse_decimal(s: &[u8]) -> (r: Option<BigNat>)
    ensures
        r is Some <==> is_decimal(s@),
        r matches Some(n) ==> n@ == decimal_value(s@),
{
    if !check_decimal(s) {
        return None;
    }
    Some(big_parse_decimal(s))
}

/// The decimal digits of a number.
pub fn format_decimal(n: &BigNat) -> (digits: Vec<u8>)
    ensures
        digits@ == decimal_repr(n@),
        is_decimal(digits@),
        decimal_value(digits@) == n@,
{
    proof {
        lemma_decimal_repr(n@);
    }
    big_to_decimal(n)
}

/// The byte strings that vectors hold.
pub open spec fn byte_views(v: Seq<Vec<u8>>) -> Seq<Seq<u8>> {
    Seq::new(v.len(), |i: int| v[i]@)
}

/// Splits bytes at their commas.
pub fn split_commas(s: &[u8]) -> (pieces: Vec<Vec<u8>>)
    ensures
        byte_views(pieces@) == tokens(s@),
{
    let mut pieces: Vec<Vec<u8>> = Vec::new();
    let mut current: Vec<u8> = Vec::new();
    let mut i: usize = 0;
    proof {
        assert(s@.take(0) =~= Seq::<u8>::empty());
        assert(byte_views(pieces@).push(current@) =~= tokens(s@.take(0)));
    }
    while i < s.len()
        invariant
            i <= s.len(),
            byte_views(pieces@).push(current@) == tokens(s@.take(i as int)),
        decreases s.len() - i,
    {
        let ghost before = byte_views(pieces@);
        let ghost piece = current@;
        proof {
            assert(s@.take(i + 1).drop_last() =~= s@.take(i as int));
            assert(s@.take(i + 1).last() == s@[i as int]);
        }
        if s[i] == COMMA {
            pieces.push(current);
            current = Vec::new();
            proof {
                assert(byte_views(pieces@) =~= before.push(piece));
                assert(byte_views(pieces@).push(current@) =~= before.push(piece).push(
                    Seq::<u8>::empty(),
                ));
            }
        } else {
            current.push(s[i]);
            proof {
                let prev = before.push(piece);
                assert(byte_views(pieces@).push(current@) =~= prev.update(
                    prev.len() - 1,
                    prev.last().push(s@[i as int]),
                ));
            }
        }
        i = i + 1;
    }
    let ghost before = byte_views(pieces@);
    let ghost piece = current@;
    pieces.push(current);
    proof {
        assert(s@.take(s.len() as int) =~= s@);
        assert(byte_views(pieces@) =~= before.push(piece));
    }
    pieces
}

} // verus!
