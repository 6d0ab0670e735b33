//! Decryption of text undoes encryption of text.

use crate::bigint::{
    be_bytes, be_value, lemma_be_digits_of_value, lemma_be_value_reverse, lemma_le_value_bound,
    lemma_pow256_32,
};
use crate::decimal::{comma_free, is_decimal, lemma_decimal_repr, lemma_tokens_joined, tokens};
use crate::encryption::poseidon_encryption::{
    byte_slice, decimal_words, decrypted_text, encrypted_text, slice_start, slot_bytes,
    slots_text, text_elements, DecryptError,
};
use crate::encryptor::encryption::cipher::{
    cipher_spec, cipher_start, cipher_words, encrypted, is_cipher_text,
    lemma_decrypt_inverts_encrypt, CIPHER_SIZE, MESSAGE_CAPACITY, SLICE_SIZE,
};
use crate::encryptor::encryptor::{
    absorbed, chunk_len, drained, initial_cipher_state, lemma_released_len, released, with_chunk,
};
use crate::encryptor::permutation::{permuted, rounds};
use crate::encryptor::spec::SpecView;
use crate::field::modulus;
use vstd::arithmetic::div_mod::lemma_small_mod;
use vstd::prelude::*;
use vstd::utf8::valid_utf8;

verus! {

/// Whether a slice comes back from the number that it is read as: it is
/// empty, or neither starts nor ends with a zero byte.
pub open spec fn slice_survives(bytes: Seq<u8>) -> bool {
    bytes.len() == 0 || (bytes[0] != 0 && bytes.last() != 0)
}

/// Whether a text is one that encryption keeps whole: it is well-formed
/// UTF-8 of at most 341 bytes, and every slice of it survives.
pub open spec fn text_survives(text: Seq<u8>) -> bool {
    &&& valid_utf8(text)
    &&& text.len() <= MESSAGE_CAPACITY * SLICE_SIZE
    &&& forall|i: int| 0 <= i < MESSAGE_CAPACITY ==> slice_survives(#[trigger] byte_slice(text, i))
}

/// Every well-formed text of at most 341 bytes without a zero byte survives.
pub proof fn lemma_zero_free_text_survives(text: Seq<u8>)
    requires
        valid_utf8(text),
        text.len() <= MESSAGE_CAPACITY * SLICE_SIZE,
        forall|k: int| 0 <= k < text.len() ==> #[trigger] text[k] != 0,
    ensures
        text_survives(text),
{
    assert forall|i: int| 0 <= i < MESSAGE_CAPACITY implies slice_survives(
        #[trigger] byte_slice(text, i),
    ) by {
        let slice = byte_slice(text, i);
        let from = slice_start(text, i);
        if slice.len() > 0 {
            assert(slice[0] == text[from]);
            assert(slice.last() == text[from + slice.len() - 1]);
        }
    }
}

/// A slice that survives is the bytes of the number that it is read as, and
/// that number is a field element.
pub proof fn lemma_slice_comes_back(bytes: Seq<u8>)
    requires
        bytes.len() <= SLICE_SIZE,
        slice_survives(bytes),
    ensures
        be_value(bytes) < modulus(),
        slot_bytes(be_value(bytes)) == bytes,
{
    lemma_be_value_reverse(bytes);
    lemma_le_value_bound(bytes.reverse());
    lemma_pow256_32();
    if bytes.len() < 31 {
        vstd::arithmetic::power::lemma_pow_increases(256, bytes.len(), 31);
    }
    if bytes.len() == 0 {
        assert(be_bytes(0).drop_last() =~= Seq::<u8>::empty());
    } else {
        lemma_be_digits_of_value(bytes);
    }
}

/// The capacity word stays a field element under the permutation.
pub proof fn lemma_permuted_capacity_reduced(v: SpecView, state: Seq<nat>)
    requires
        state[0] < modulus(),
    ensures
        permuted(v, state)[0] < modulus(),
{
    let n = v.r_f + v.r_p;
    if n > 0 {
        assert(rounds(v, state, n) == crate::encryptor::permutation::round(
            v,
            rounds(v, state, (n - 1) as nat),
            (n - 1) as nat,
        ));
    }
}

/// Every word of the cipher text of a whole message is a field element.
pub proof fn lemma_encrypted_reduced(v: SpecView, key: Seq<nat>, data: Seq<nat>)
    requires
        data.len() == MESSAGE_CAPACITY,
    ensures
        forall|i: int| 0 <= i < CIPHER_SIZE ==> #[trigger] encrypted(v, key, data)[i] < modulus(),
{
    let start = cipher_start(v, key);
    lemma_released_len(v, start, data);
    lemma_released_reduced(v, start, data);
    lemma_permuted_capacity_reduced(v, initial_cipher_state(key[0], key[1]));
    lemma_drained_reduced(v, start, data);
}

/// Every released word is a field element.
pub proof fn lemma_released_reduced(v: SpecView, state: Seq<nat>, queue: Seq<nat>)
    ensures
        forall|i: int|
            0 <= i < released(v, state, queue).len() ==> #[trigger] released(v, state, queue)[i]
                < modulus(),
    decreases queue.len(),
{
    if queue.len() > 0 {
        let n = chunk_len(queue);
        let chunk = queue.take(n);
        let head = with_chunk(state, chunk).subrange(1, 1 + n);
        let next = absorbed(v, state, chunk);
        lemma_released_reduced(v, next, queue.skip(n));
        let tail = released(v, next, queue.skip(n));
        assert forall|i: int| 0 <= i < (head + tail).len() implies #[trigger] (head + tail)[i]
            < modulus() by {
            if i < n {
                assert(head[i] == with_chunk(state, chunk)[i + 1]);
            } else {
                assert((head + tail)[i] == tail[i - n]);
            }
        }
    }
}

/// Absorbing a queue keeps the capacity word a field element.
pub proof fn lemma_drained_reduced(v: SpecView, state: Seq<nat>, queue: Seq<nat>)
    requires
        state[0] < modulus(),
    ensures
        drained(v, state, queue)[0] < modulus(),
    decreases queue.len(),
{
    if queue.len() > 0 {
        let n = chunk_len(queue);
        let chunk = queue.take(n);
        let next = absorbed(v, state, chunk);
        lemma_permuted_capacity_reduced(v, with_chunk(state, chunk));
        lemma_drained_reduced(v, next, queue.skip(n));
    }
}

/// A cipher text written in decimal reads back as its words.
pub proof fn lemma_decimal_words_read_back(words: Seq<nat>)
    requires
        words.len() == CIPHER_SIZE,
        forall|i: int| 0 <= i < words.len() ==> #[trigger] words[i] < modulus(),
    ensures
        is_cipher_text(crate::decimal::joined(decimal_words(words))),
        cipher_words(crate::decimal::joined(decimal_words(words))) == words,
{
    let pieces = decimal_words(words);
    assert forall|k: int| 0 <= k < pieces.len() implies comma_free(#[trigger] pieces[k]) by {
        lemma_decimal_repr(words[k]);
        let p = pieces[k];
        assert forall|i: int| 0 <= i < p.len() implies #[trigger] p[i] != crate::decimal::COMMA by {
            assert(crate::decimal::is_digit(p[i]));
        }
    }
    lemma_tokens_joined(pieces);
    let text = crate::decimal::joined(pieces);
    assert forall|i: int| 0 <= i < CIPHER_SIZE implies is_decimal(#[trigger] tokens(text)[i]) by {
        lemma_decimal_repr(words[i]);
    }
    assert forall|i: int| 0 <= i < CIPHER_SIZE implies cipher_words(text)[i] == words[i] by {
        lemma_decimal_repr(words[i]);
        lemma_small_mod(words[i], modulus());
    }
    assert(cipher_words(text) =~= words);
}

/// The first `i` recovered slices, one after the other, are the text up to
/// the start of slice `i`.
pub proof fn lemma_slices_concat(text: Seq<u8>, elements: Seq<nat>, i: nat)
    requires
        elements.len() == MESSAGE_CAPACITY,
        i <= MESSAGE_CAPACITY,
        forall|k: int|
            0 <= k < MESSAGE_CAPACITY ==> slot_bytes(#[trigger] elements[k]) == byte_slice(
                text,
                k,
            ),
    ensures
        slots_text(elements.take(i as int)) == text.take(slice_start(text, i as int)),
    decreases i,
{
    if i == 0 {
        assert(elements.take(0) =~= Seq::<nat>::empty());
        assert(text.take(0) =~= Seq::<u8>::empty());
    } else {
        let j = (i - 1) as nat;
        lemma_slices_concat(text, elements, j);
        let now = elements.take(i as int);
        assert(now.drop_last() =~= elements.take(j as int));
        assert(now.last() == elements[j as int]);
        assert(text.take(slice_start(text, j as int)) + byte_slice(text, j as int) =~= text.take(
            slice_start(text, i as int),
        ));
    }
}

/// Decryption undoes encryption: a well-formed text of at most 341 bytes
/// whose slices survive, encrypted under a key, is a cipher text that
/// decrypts under that key to the text. Every such text without a zero byte
/// is one.
pub proof fn lemma_text_round_trip(text: Seq<u8>, key: Seq<nat>)
    requires
        valid_utf8(text),
        text.len() <= MESSAGE_CAPACITY * SLICE_SIZE,
        forall|i: int| 0 <= i < MESSAGE_CAPACITY ==> slice_survives(#[trigger] byte_slice(text, i)),
    ensures
        is_cipher_text(encrypted_text(text, key)),
        decrypted_text(encrypted_text(text, key), key) == Ok::<Seq<u8>, DecryptError>(text),
{
    let v = cipher_spec();
    let elements = text_elements(text);
    assert forall|i: int| 0 <= i < MESSAGE_CAPACITY implies #[trigger] elements[i] < modulus()
        && slot_bytes(elements[i]) == byte_slice(text, i) by {
        let b = byte_slice(text, i);
        assert(slice_survives(b));
        lemma_slice_comes_back(b);
        lemma_small_mod(be_value(b), modulus());
    }
    let words = encrypted(v, key, elements);
    lemma_encrypted_reduced(v, key, elements);
    lemma_decimal_words_read_back(words);
    lemma_decrypt_inverts_encrypt(v, key, elements);
    lemma_slices_concat(text, elements, MESSAGE_CAPACITY as nat);
    assert(elements.take(MESSAGE_CAPACITY as int) =~= elements);
    assert(text.take(slice_start(text, MESSAGE_CAPACITY as int)) =~= text);
}

} // verus!
