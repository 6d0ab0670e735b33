//! The cipher: a message of [`MESSAGE_CAPACITY`] field elements is added,
//! chunk by chunk, into the rate words of a keyed sponge, and the sums are the
//! cipher text. One more word, the capacity word of the final state, lets
//! decryption tell a cipher text that was not made under its key.

use crate::encryptor::chip::{FULL_ROUND, PARTIAL_ROUND};
use crate::encryptor::encryptor::{
    absorbed, chunk_len, drained, initial_cipher_state, lemma_released_len,
    released, with_chunk, Encryptor,
};
use crate::encryptor::grain::fe_views;
use crate::encryptor::permutation::{lemma_permuted_len, permuted};
use crate::encryptor::spec::{poseidon_spec, SpecView, RATE, T};
use crate::bigint::{be_value, BigNat};
use crate::decimal::{
    byte_views, decimal_value, is_decimal, parse_decimal, split_commas, tokens,
};
use crate::field::{fe_sub, lemma_fe_sub_add, modulus, Fe};
use vstd::prelude::*;
use vstd::string::StringSliceAdditionalSpecFns;
use vstd::utf8::{is_char_boundary, is_continuation_byte, valid_utf8};

verus! {

/// The number of field elements of a message.
pub const MESSAGE_CAPACITY: usize = 11;

/// The number of field elements of a cipher text: the message and the parity
/// word.
pub const CIPHER_SIZE: usize = 12;

/// Why a cipher text was refused.
#[derive(Clone, Copy, Debug, PartialEq, Eq, Structural)]
pub enum Error {
    /// The parity word is not the one that the key and the message give.
    InvalidCipherText,
}

impl Error {
    /// The error in words.
    pub fn message(&self) -> (text: String)
        ensures
            text@ == "Invalid cipher text"@,
    {
        "Invalid cipher text".to_owned()
    }
}

/// The parameters of the permutation that the cipher and the hash run on.
pub open spec fn cipher_spec() -> SpecView {
    poseidon_spec(FULL_ROUND as nat, PARTIAL_ROUND as nat)
}

/// The state from which the first word is encrypted: the keyed state, put
/// through the permutation once.
pub open spec fn cipher_start(v: SpecView, key: Seq<nat>) -> Seq<nat> {
    permuted(v, initial_cipher_state(key[0], key[1]))
}

/// The cipher text of `data` under `key`: the first [`MESSAGE_CAPACITY`]
/// words that absorbing `data` releases, zero where `data` is shorter, and
/// the capacity word of the state that absorbing all of `data` leaves.
pub open spec fn encrypted(v: SpecView, key: Seq<nat>, data: Seq<nat>) -> Seq<nat> {
    let start = cipher_start(v, key);
    let words = released(v, start, data);
    let last = drained(v, start, data);
    Seq::new(
        CIPHER_SIZE as nat,
        |i: int|
            if i < MESSAGE_CAPACITY {
                if i < words.len() {
                    words[i]
                } else {
                    0
                }
            } else {
                last[0]
            },
    )
}

/// The plain words of a chunk of cipher words: each less the rate word that
/// it was added to.
pub open spec fn plain_chunk(state: Seq<nat>, chunk: Seq<nat>) -> Seq<nat> {
    Seq::new(chunk.len(), |j: int| fe_sub(chunk[j], state[j + 1]))
}

/// The plain words of cipher words, recovered chunk by chunk: each chunk is
/// recovered from the state and then absorbed, as encryption absorbed it.
pub open spec fn recovered(v: SpecView, state: Seq<nat>, words: Seq<nat>) -> Seq<nat>
    decreases words.len(),
{
    if words.len() == 0 {
        Seq::empty()
    } else {
        let n = chunk_len(words);
        let plain = plain_chunk(state, words.take(n));
        plain + recovered(v, absorbed(v, state, plain), words.skip(n))
    }
}

/// The state after the plain words of cipher words have been recovered.
pub open spec fn recovered_state(v: SpecView, state: Seq<nat>, words: Seq<nat>) -> Seq<nat>
    decreases words.len(),
{
    if words.len() == 0 {
        state
    } else {
        let n = chunk_len(words);
        let plain = plain_chunk(state, words.take(n));
        recovered_state(v, absorbed(v, state, plain), words.skip(n))
    }
}

/// The message of a cipher text under `key`, if its parity word is the
/// capacity word of the state that recovering the message leaves.
pub open spec fn decrypted(v: SpecView, key: Seq<nat>, cipher: Seq<nat>) -> Option<Seq<nat>> {
    let start = cipher_start(v, key);
    let body = cipher.take(MESSAGE_CAPACITY as int);
    if cipher[MESSAGE_CAPACITY as int] == recovered_state(v, start, body)[0] {
        Some(recovered(v, start, body))
    } else {
        None
    }
}

/// Recovering what absorbing released gives the absorbed words back, and
/// leaves the state that absorbing left.
pub proof fn lemma_recover_released(v: SpecView, state: Seq<nat>, data: Seq<nat>)
    requires
        state.len() == T,
        forall|i: int| 0 <= i < data.len() ==> data[i] < modulus(),
    ensures
        recovered(v, state, released(v, state, data)) == data,
        recovered_state(v, state, released(v, state, data)) == drained(v, state, data),
    decreases data.len(),
{
    let words = released(v, state, data);
    lemma_released_len(v, state, data);
    if data.len() > 0 {
        let n = chunk_len(data);
        let chunk = data.take(n);
        let next = absorbed(v, state, chunk);
        let tail = released(v, next, data.skip(n));
        lemma_released_len(v, next, data.skip(n));
        let head = with_chunk(state, chunk).subrange(1, 1 + n);
        assert(words == head + tail);
        assert(chunk_len(words) == n);
        assert(words.take(n) =~= head);
        assert(words.skip(n) =~= tail);
        let plain = plain_chunk(state, head);
        assert(plain =~= chunk) by {
            assert forall|j: int| 0 <= j < n implies plain[j] == chunk[j] by {
                lemma_fe_sub_add(state[j + 1], chunk[j]);
            }
        }
        lemma_permuted_len(v, with_chunk(state, chunk));
        lemma_recover_released(v, next, data.skip(n));
        assert(chunk + data.skip(n) =~= data);
    }
}

/// Decryption undoes encryption: a message of [`MESSAGE_CAPACITY`] field
/// elements, encrypted under a key, decrypts under that key to itself.
pub proof fn lemma_decrypt_inverts_encrypt(v: SpecView, key: Seq<nat>, data: Seq<nat>)
    requires
        data.len() == MESSAGE_CAPACITY,
        forall|i: int| 0 <= i < data.len() ==> data[i] < modulus(),
    ensures
        decrypted(v, key, encrypted(v, key, data)) == Some(data),
{
    let start = cipher_start(v, key);
    let cipher = encrypted(v, key, data);
    lemma_permuted_len(v, initial_cipher_state(key[0], key[1]));
    lemma_released_len(v, start, data);
    lemma_recover_released(v, start, data);
    assert(cipher.take(MESSAGE_CAPACITY as int) =~= released(v, start, data));
}

/// A cipher text whose parity word has been changed is refused.
pub proof fn lemma_changed_parity_is_refused(
    v: SpecView,
    key: Seq<nat>,
    data: Seq<nat>,
    parity: nat,
)
    requires
        data.len() == MESSAGE_CAPACITY,
        forall|i: int| 0 <= i < data.len() ==> data[i] < modulus(),
        parity != encrypted(v, key, data)[MESSAGE_CAPACITY as int],
    ensures
        decrypted(v, key, encrypted(v, key, data).update(MESSAGE_CAPACITY as int, parity))
            is None,
{
    let start = cipher_start(v, key);
    let cipher = encrypted(v, key, data);
    let changed = cipher.update(MESSAGE_CAPACITY as int, parity);
    lemma_permuted_len(v, initial_cipher_state(key[0], key[1]));
    lemma_released_len(v, start, data);
    lemma_recover_released(v, start, data);
    assert(changed.take(MESSAGE_CAPACITY as int) =~= released(v, start, data));
}

/// The number of bytes of a slice of text: one less than the bytes of a
/// field element, so that a slice is always below the order of the field.
pub const SLICE_SIZE: usize = 31;

/// Whether a slice may start at place `p`: at the start of the bytes, at
/// their end, or at a byte that does not continue a character. In well-formed
/// UTF-8 these are the places between two characters.
pub open spec fn starts_char(bytes: Seq<u8>, p: int) -> bool {
    p <= 0 || p >= bytes.len() || !is_continuation_byte(bytes[p])
}

/// The last place at or before `p` at which a slice may start.
pub open spec fn last_start(bytes: Seq<u8>, p: int) -> int
    decreases p,
{
    if p <= 0 {
        0
    } else if starts_char(bytes, p) {
        p
    } else {
        last_start(bytes, p - 1)
    }
}

/// The number of bytes of the first slice of the bytes: all of them if they
/// are at most [`SLICE_SIZE`], and else as many as lie before the last place
/// at or before [`SLICE_SIZE`] at which a slice may start.
pub open spec fn first_cut(bytes: Seq<u8>) -> int {
    if bytes.len() <= SLICE_SIZE {
        bytes.len() as int
    } else {
        last_start(bytes, SLICE_SIZE as int)
    }
}

/// What is left of the bytes after `i` slices have been cut off.
pub open spec fn rest_after(bytes: Seq<u8>, i: nat) -> Seq<u8>
    decreases i,
{
    if i == 0 {
        bytes
    } else {
        let rest = rest_after(bytes, (i - 1) as nat);
        rest.skip(first_cut(rest))
    }
}

/// Slice `i` of a text's bytes: the first slice of what the slices before it
/// have left. No slice ends inside a character, and the slices past the end of
/// the text are empty.
pub open spec fn slice_bytes(bytes: Seq<u8>, i: int) -> Seq<u8> {
    let rest = rest_after(bytes, i as nat);
    rest.take(first_cut(rest))
}

/// The first `n` slices of a text's bytes, one after the other.
pub open spec fn slices_text(bytes: Seq<u8>, n: nat) -> Seq<u8>
    decreases n,
{
    if n == 0 {
        Seq::empty()
    } else {
        slices_text(bytes, (n - 1) as nat) + slice_bytes(bytes, n - 1)
    }
}

/// Whether [`MESSAGE_CAPACITY`] slices hold the whole text.
pub open spec fn text_fits(bytes: Seq<u8>) -> bool {
    rest_after(bytes, MESSAGE_CAPACITY as nat).len() == 0
}

/// The last start at or before `p` is a place at which a slice may start,
/// and lies between zero and `p`.
pub proof fn lemma_last_start(bytes: Seq<u8>, p: int)
    requires
        p >= 0,
    ensures
        0 <= last_start(bytes, p) <= p,
        starts_char(bytes, last_start(bytes, p)),
    decreases p,
{
    if p > 0 && !starts_char(bytes, p) {
        lemma_last_start(bytes, p - 1);
    }
}

/// The first slice takes at most [`SLICE_SIZE`] bytes, and no more than there
/// are.
pub proof fn lemma_first_cut(bytes: Seq<u8>)
    ensures
        0 <= first_cut(bytes) <= bytes.len(),
        first_cut(bytes) <= SLICE_SIZE,
        starts_char(bytes, first_cut(bytes)),
{
    lemma_last_start(bytes, SLICE_SIZE as int);
}

/// The slices and what they leave are the text: nothing is lost between
/// two slices.
pub proof fn lemma_slices_rebuild(bytes: Seq<u8>, n: nat)
    ensures
        slices_text(bytes, n) + rest_after(bytes, n) == bytes,
    decreases n,
{
    if n == 0 {
        assert(Seq::<u8>::empty() + bytes =~= bytes);
    } else {
        let m = (n - 1) as nat;
        lemma_slices_rebuild(bytes, m);
        let rest = rest_after(bytes, m);
        lemma_first_cut(rest);
        let cut = first_cut(rest);
        assert(rest.take(cut) + rest.skip(cut) =~= rest);
        assert(slices_text(bytes, n) + rest_after(bytes, n) =~= slices_text(bytes, m) + rest);
    }
}

/// In well-formed UTF-8 the first slice ends between two characters.
pub proof fn lemma_cut_between_chars(bytes: Seq<u8>)
    requires
        valid_utf8(bytes),
    ensures
        is_char_boundary(bytes, first_cut(bytes)),
{
    lemma_first_cut(bytes);
    let cut = first_cut(bytes);
    if cut == 0 || cut == bytes.len() {
        vstd::utf8::is_char_boundary_start_end_of_seq(bytes);
    } else {
        vstd::utf8::is_char_boundary_iff_not_is_continuation_byte(bytes, cut);
    }
}

/// Every slice of well-formed UTF-8 is well-formed UTF-8 of at most
/// [`SLICE_SIZE`] bytes, and so is what the slices leave.
pub proof fn lemma_slices_well_formed(bytes: Seq<u8>, i: nat)
    requires
        valid_utf8(bytes),
    ensures
        valid_utf8(rest_after(bytes, i)),
        valid_utf8(slice_bytes(bytes, i as int)),
        slice_bytes(bytes, i as int).len() <= SLICE_SIZE,
    decreases i,
{
    if i > 0 {
        let before = rest_after(bytes, (i - 1) as nat);
        lemma_slices_well_formed(bytes, (i - 1) as nat);
        lemma_first_cut(before);
        lemma_cut_between_chars(before);
        let cut = first_cut(before);
        vstd::utf8::valid_utf8_split(before, cut);
        assert(before.skip(cut) =~= before.subrange(cut, before.len() as int));
    }
    let rest = rest_after(bytes, i);
    lemma_first_cut(rest);
    lemma_cut_between_chars(rest);
    vstd::utf8::valid_utf8_split(rest, first_cut(rest));
    assert(rest.take(first_cut(rest)) =~= rest.subrange(0, first_cut(rest)));
}

/// In well-formed UTF-8 one of any four places in a row lies between two
/// characters: a character takes at most four bytes.
pub proof fn lemma_boundary_within_four(bytes: Seq<u8>, k: int) -> (p: int)
    requires
        valid_utf8(bytes),
        3 <= k <= bytes.len(),
    ensures
        k - 3 <= p <= k,
        is_char_boundary(bytes, p),
    decreases bytes.len(),
{
    if k == 3 {
        vstd::utf8::is_char_boundary_start_end_of_seq(bytes);
        0
    } else {
        let first = vstd::utf8::length_of_first_scalar(bytes);
        let tail = vstd::utf8::pop_first_scalar(bytes);
        assert(vstd::utf8::valid_first_scalar(bytes) && valid_utf8(tail));
        assert(1 <= first <= 4 && first <= bytes.len());
        assert(tail.len() == bytes.len() - first);
        if k - 3 <= first {
            vstd::utf8::is_char_boundary_start_end_of_seq(tail);
            assert(is_char_boundary(bytes, first));
            first
        } else {
            let q = lemma_boundary_within_four(tail, k - first);
            assert(is_char_boundary(bytes, q + first));
            q + first
        }
    }
}

/// The last start at or before `q` is not before any start at or before `q`.
pub proof fn lemma_last_start_is_last(bytes: Seq<u8>, p: int, q: int)
    requires
        0 <= p <= q,
        starts_char(bytes, p),
    ensures
        last_start(bytes, q) >= p,
    decreases q,
{
    if q > 0 && !starts_char(bytes, q) {
        lemma_last_start_is_last(bytes, p, q - 1);
    }
}

/// A slice of well-formed UTF-8 that does not reach the end of the text
/// takes at least 28 bytes.
pub proof fn lemma_cut_takes_most(bytes: Seq<u8>)
    requires
        valid_utf8(bytes),
        bytes.len() > SLICE_SIZE,
    ensures
        first_cut(bytes) >= SLICE_SIZE - 3,
{
    let p = lemma_boundary_within_four(bytes, SLICE_SIZE as int);
    vstd::utf8::is_char_boundary_iff_not_is_continuation_byte(bytes, p);
    lemma_last_start_is_last(bytes, p, SLICE_SIZE as int);
}

/// After `i` slices of well-formed UTF-8, what is left is shorter by at least
/// 28 bytes for each slice, or nothing is left.
pub proof fn lemma_rest_shrinks(bytes: Seq<u8>, i: nat)
    requires
        valid_utf8(bytes),
    ensures
        rest_after(bytes, i).len() == 0 || rest_after(bytes, i).len() + (SLICE_SIZE - 3) * i
            <= bytes.len(),
    decreases i,
{
    if i > 0 {
        let j = (i - 1) as nat;
        lemma_rest_shrinks(bytes, j);
        lemma_slices_well_formed(bytes, j);
        let before = rest_after(bytes, j);
        lemma_first_cut(before);
        if before.len() > SLICE_SIZE {
            lemma_cut_takes_most(before);
        }
    }
}

/// Every well-formed text of at most 308 bytes fits the slices, whatever its
/// characters are.
pub proof fn lemma_short_text_fits(bytes: Seq<u8>)
    requires
        valid_utf8(bytes),
        bytes.len() <= MESSAGE_CAPACITY * (SLICE_SIZE - 3),
    ensures
        text_fits(bytes),
{
    lemma_rest_shrinks(bytes, MESSAGE_CAPACITY as nat);
}

/// Cuts a text into [`MESSAGE_CAPACITY`] slices of at most [`SLICE_SIZE`]
/// bytes. Each slice ends at the last place at or before its 31st byte that
/// lies between two characters, so the slices, one after the other, are the
/// text as far as they reach. Text that the slices do not reach is dropped;
/// slices past the end of the text are empty. These are slices of text, each
/// a text of its own; encryption of a text cuts its bytes instead, at every
/// 31st byte, and so holds 341 bytes whatever the characters are.
pub fn data_to_slices(data: &str) -> (slices: [&str; 11])
    ensures
        forall|i: int|
            0 <= i < MESSAGE_CAPACITY ==> (#[trigger] slices@[i]).spec_bytes() == slice_bytes(
                data.spec_bytes(),
                i,
            ),
        forall|i: int|
            0 <= i < MESSAGE_CAPACITY ==> (#[trigger] slices@[i]).spec_bytes().len()
                <= SLICE_SIZE,
        slices_text(data.spec_bytes(), MESSAGE_CAPACITY as nat) + rest_after(
            data.spec_bytes(),
            MESSAGE_CAPACITY as nat,
        ) == data.spec_bytes(),
{
    let ghost bytes = data.spec_bytes();
    let mut slices: [&str; 11] = [""; 11];
    let mut rest: &str = data;
    let mut i: usize = 0;
    while i < MESSAGE_CAPACITY
        invariant
            i <= MESSAGE_CAPACITY,
            bytes == data.spec_bytes(),
            rest.spec_bytes() == rest_after(bytes, i as nat),
            forall|k: int|
                0 <= k < i ==> (#[trigger] slices@[k]).spec_bytes() == slice_bytes(bytes, k),
        decreases MESSAGE_CAPACITY - i,
    {
        let rest_bytes = rest.as_bytes();
        let len = rest_bytes.len();
        let mut cut: usize = len;
        if len > SLICE_SIZE {
            cut = SLICE_SIZE;
            while cut > 0 && rest_bytes[cut] >= 0x80 && rest_bytes[cut] <= 0xbf
                invariant
                    cut <= SLICE_SIZE < len,
                    len == rest_bytes@.len(),
                    last_start(rest_bytes@, cut as int) == last_start(
                        rest_bytes@,
                        SLICE_SIZE as int,
                    ),
                decreases cut,
            {
                cut = cut - 1;
            }
        }
        proof {
            assert(cut == first_cut(rest_bytes@));
            vstd::utf8::encode_utf8_valid_utf8(rest@);
            lemma_cut_between_chars(rest_bytes@);
        }
        let (head, tail) = rest.split_at(cut);
        proof {
            assert(head.spec_bytes() =~= slice_bytes(bytes, i as int));
            assert(tail.spec_bytes() =~= rest_after(bytes, (i + 1) as nat));
        }
        slices[i] = head;
        rest = tail;
        i = i + 1;
    }
    proof {
        lemma_slices_rebuild(bytes, MESSAGE_CAPACITY as nat);
        vstd::utf8::encode_utf8_valid_utf8(data@);
        assert forall|k: int| 0 <= k < MESSAGE_CAPACITY implies (#[trigger] slices@[k]).spec_bytes().len()
            <= SLICE_SIZE by {
            lemma_slices_well_formed(bytes, k as nat);
        }
    }
    slices
}

/// The field elements that slices of text stand for: each slice's bytes,
/// read as a big-endian number and reduced into the field.
pub fn str_slices_to_fr_slices(data_slices: [&str; 11]) -> (elements: [Fe; 11])
    ensures
        forall|i: int|
            0 <= i < MESSAGE_CAPACITY ==> (#[trigger] elements@[i])@ == be_value(
                data_slices@[i].spec_bytes(),
            ) % modulus(),
{
    let mut elements: [Fe; 11] = [Fe::zero(); 11];
    let mut i: usize = 0;
    while i < MESSAGE_CAPACITY
        invariant
            i <= MESSAGE_CAPACITY,
            forall|k: int|
                0 <= k < i ==> (#[trigger] elements@[k])@ == be_value(
                    data_slices@[k].spec_bytes(),
                ) % modulus(),
        decreases MESSAGE_CAPACITY - i,
    {
        let number = BigNat::from_bytes_be(data_slices[i].as_bytes());
        elements[i] = Fe::from_big(&number);
        i = i + 1;
    }
    elements
}

/// The words that a cipher text in decimal stands for: the numbers between
/// the commas, each reduced into the field.
pub open spec fn cipher_words(text: Seq<u8>) -> Seq<nat> {
    Seq::new(tokens(text).len(), |i: int| decimal_value(tokens(text)[i]) % modulus())
}

/// Whether a text is a cipher text in decimal: [`CIPHER_SIZE`] decimal
/// numbers joined by commas.
pub open spec fn is_cipher_text(text: Seq<u8>) -> bool {
    &&& tokens(text).len() == CIPHER_SIZE
    &&& forall|i: int| 0 <= i < CIPHER_SIZE ==> is_decimal(#[trigger] tokens(text)[i])
}

/// Reads a cipher text in decimal, if it is one.
pub fn encrypted_str_to_fr_slices(encrypted_data: &str) -> (words: Option<[Fe; 12]>)
    ensures
        words is Some <==> is_cipher_text(encrypted_data.spec_bytes()),
        words matches Some(w) ==> fe_views(w@) == cipher_words(encrypted_data.spec_bytes()),
{
    let ghost text = encrypted_data.spec_bytes();
    let pieces = split_commas(encrypted_data.as_bytes());
    proof {
        assert(pieces@.len() == byte_views(pieces@).len());
    }
    if pieces.len() != CIPHER_SIZE {
        return None;
    }
    let mut words: [Fe; 12] = [Fe::zero(); 12];
    let mut i: usize = 0;
    while i < CIPHER_SIZE
        invariant
            i <= CIPHER_SIZE,
            pieces.len() == CIPHER_SIZE,
            text == encrypted_data.spec_bytes(),
            byte_views(pieces@) == tokens(text),
            forall|k: int| 0 <= k < i ==> is_decimal(#[trigger] tokens(text)[k]),
            forall|k: int|
                0 <= k < i ==> (#[trigger] words@[k])@ == decimal_value(tokens(text)[k])
                    % modulus(),
        decreases CIPHER_SIZE - i,
    {
        proof {
            assert(pieces@[i as int]@ == byte_views(pieces@)[i as int]);
        }
        match parse_decimal(pieces[i].as_slice()) {
            None => {
                proof {
                    assert(!is_decimal(tokens(text)[i as int]));
                }
                return None;
            },
            Some(number) => {
                words[i] = Fe::from_big(&number);
            },
        }
        i = i + 1;
    }
    proof {
        assert(fe_views(words@) =~= cipher_words(text));
    }
    Some(words)
}

/// The cipher, and the last cipher text that it made.
#[derive(Clone, Copy, Debug)]
pub struct Cipher {
    pub cipher_byte_size: usize,
    pub cipher: [Fe; 12],
}

impl Default for Cipher {
    fn default() -> (c: Self)
        ensures
            c.cipher_byte_size == 0,
            forall|i: int| 0 <= i < CIPHER_SIZE ==> (#[trigger] c.cipher@[i])@ == 0,
    {
        let blank = Cipher::new();
        Cipher { cipher_byte_size: 0, cipher: blank.cipher }
    }
}

impl Cipher {
    /// A cipher that has made no cipher text yet. The byte size is that of a
    /// cipher text whose words take the 254 bits of a field element each.
    pub fn new() -> (c: Self)
        ensures
            c.cipher_byte_size == CIPHER_SIZE * 254 / 8,
            forall|i: int| 0 <= i < CIPHER_SIZE ==> (#[trigger] c.cipher@[i])@ == 0,
    {
        let zero = Fe::zero();
        let mut cipher: [Fe; 12] = [zero; 12];
        let mut i: usize = 0;
        while i < CIPHER_SIZE
            invariant
                i <= CIPHER_SIZE,
                zero@ == 0,
                forall|k: int| 0 <= k < i ==> (#[trigger] cipher@[k])@ == 0,
            decreases CIPHER_SIZE - i,
        {
            cipher[i] = zero;
            i = i + 1;
        }
        Cipher { cipher_byte_size: CIPHER_SIZE * 254 / 8, cipher }
    }

    /// The number of field elements of a message.
    pub fn capacity() -> (n: usize)
        ensures
            n == MESSAGE_CAPACITY,
    {
        MESSAGE_CAPACITY
    }

    /// The number of field elements of a cipher text.
    pub fn cipher_size() -> (n: usize)
        ensures
            n == CIPHER_SIZE,
    {
        CIPHER_SIZE
    }

    /// Two zero words followed by the nonce.
    pub fn initial_state(&self, nonce: Fe) -> (state: [Fe; 3])
        ensures
            fe_views(state@) == seq![0nat, 0nat, nonce@],
    {
        let state: [Fe; 3] = [Fe::zero(), Fe::zero(), nonce];
        proof {
            assert(fe_views(state@) =~= seq![0nat, 0nat, nonce@]);
        }
        state
    }

    /// Encrypts `data` under the key and keeps the cipher text.
    pub fn encrypt(&mut self, data: &[Fe], encryption_key: &[Fe; 2]) -> (result: Result<
        [Fe; 12],
        Error,
    >)
        ensures
            result matches Ok(cipher) && fe_views(cipher@) == encrypted(
                cipher_spec(),
                fe_views(encryption_key@),
                fe_views(data@),
            ) && final(self).cipher == cipher,
            final(self).cipher_byte_size == old(self).cipher_byte_size,
    {
        let ghost v = cipher_spec();
        let ghost key = fe_views(encryption_key@);
        let mut encryptor = Encryptor::new_enc(
            FULL_ROUND,
            PARTIAL_ROUND,
            encryption_key[0],
            encryption_key[1],
        );
        let _ = encryptor.squeeze(0);
        proof {
            let init = initial_cipher_state(key[0], key[1]);
            assert(drained(v, init, Seq::<nat>::empty()) == init);
        }
        encryptor.update(data);
        proof {
            assert(Seq::<nat>::empty() + fe_views(data@) =~= fe_views(data@));
        }
        let words = encryptor.absorb_and_release();
        let last = encryptor.words();
        let mut cipher: [Fe; 12] = [Fe::zero(); 12];
        let mut i: usize = 0;
        while i < MESSAGE_CAPACITY
            invariant
                i <= MESSAGE_CAPACITY,
                forall|k: int|
                    0 <= k < i ==> (#[trigger] cipher@[k])@ == if k < words.len() {
                        words@[k]@
                    } else {
                        0
                    },
            decreases MESSAGE_CAPACITY - i,
        {
            if i < words.len() {
                cipher[i] = words[i];
            } else {
                cipher[i] = Fe::zero();
            }
            i = i + 1;
        }
        cipher[MESSAGE_CAPACITY] = last[0];
        self.cipher = cipher;
        proof {
            let want = encrypted(v, key, fe_views(data@));
            assert forall|k: int| 0 <= k < CIPHER_SIZE implies fe_views(cipher@)[k]
                == want[k] by {
                if k < MESSAGE_CAPACITY {
                    assert(cipher@[k]@ == if k < words.len() {
                        words@[k]@
                    } else {
                        0
                    });
                }
            }
            assert(fe_views(cipher@) =~= want);
        }
        Ok(cipher)
    }

    /// Decrypts a cipher text under the key, and refuses it if its parity
    /// word is not the one that the key and the recovered message give.
    pub fn decrypt(&mut self, cipher: &[Fe; 12], decryption_key: &[Fe; 2]) -> (result: Result<
        [Fe; 11],
        Error,
    >)
        ensures
            *final(self) == *old(self),
            match result {
                Ok(data) => decrypted(
                    cipher_spec(),
                    fe_views(decryption_key@),
                    fe_views(cipher@),
                ) == Some(fe_views(data@)),
                Err(e) => e == Error::InvalidCipherText && decrypted(
                    cipher_spec(),
                    fe_views(decryption_key@),
                    fe_views(cipher@),
                ) is None,
            },
    {
        let ghost v = cipher_spec();
        let ghost key = fe_views(decryption_key@);
        let ghost body = fe_views(cipher@).take(MESSAGE_CAPACITY as int);
        let mut decryptor = Encryptor::new_enc(
            FULL_ROUND,
            PARTIAL_ROUND,
            decryption_key[0],
            decryption_key[1],
        );
        let _ = decryptor.squeeze(0);
        let ghost start = cipher_start(v, key);
        proof {
            let init = initial_cipher_state(key[0], key[1]);
            assert(drained(v, init, Seq::<nat>::empty()) == init);
            assert(body.skip(0) =~= body);
        }
        let mut data: [Fe; 11] = [Fe::zero(); 11];
        let parity = cipher[MESSAGE_CAPACITY];
        let mut pos: usize = 0;
        while pos < MESSAGE_CAPACITY
            invariant
                pos <= MESSAGE_CAPACITY,
                decryptor.wf(),
                v == cipher_spec(),
                decryptor@.spec == v,
                decryptor@.queue == Seq::<nat>::empty(),
                body == fe_views(cipher@).take(MESSAGE_CAPACITY as int),
                fe_views(data@).take(pos as int) + recovered(
                    v,
                    decryptor@.state,
                    body.skip(pos as int),
                ) == recovered(v, start, body),
                recovered_state(v, decryptor@.state, body.skip(pos as int)) == recovered_state(
                    v,
                    start,
                    body,
                ),
            decreases MESSAGE_CAPACITY - pos,
        {
            let n: usize = if MESSAGE_CAPACITY - pos < RATE {
                MESSAGE_CAPACITY - pos
            } else {
                RATE
            };
            let words = decryptor.words();
            let ghost state = decryptor@.state;
            let ghost rest = body.skip(pos as int);
            let ghost done = fe_views(data@).take(pos as int);
            let mut chunk: Vec<Fe> = Vec::new();
            let mut j: usize = 0;
            while j < n
                invariant
                    j <= n <= RATE,
                    pos + n <= MESSAGE_CAPACITY,
                    state == fe_views(words@),
                    body == fe_views(cipher@).take(MESSAGE_CAPACITY as int),
                    rest == body.skip(pos as int),
                    chunk.len() == j,
                    done == fe_views(data@).take(pos as int),
                    forall|k: int|
                        0 <= k < j ==> (#[trigger] chunk@[k])@ == plain_chunk(
                            state,
                            rest.take(n as int),
                        )[k],
                    forall|k: int| 0 <= k < j ==> (#[trigger] data@[pos + k]) == chunk@[k],
                decreases n - j,
            {
                let ghost kept = fe_views(data@).take(pos as int);
                let word = cipher[pos + j].sub(&words[1 + j]);
                data[pos + j] = word;
                chunk.push(word);
                proof {
                    assert(fe_views(data@).take(pos as int) =~= kept);
                    assert(rest.take(n as int)[j as int] == fe_views(cipher@)[pos + j]);
                }
                j = j + 1;
            }
            decryptor.update(chunk.as_slice());
            let _ = decryptor.absorb_and_release();
            proof {
                let plain = plain_chunk(state, rest.take(n as int));
                assert(fe_views(chunk@) =~= plain);
                assert(Seq::<nat>::empty() + plain =~= plain);
                assert(chunk_len(rest) == n);
                assert(chunk_len(plain) == n);
                assert(plain.take(n as int) =~= plain);
                assert(plain.skip(n as int) =~= Seq::<nat>::empty());
                assert(drained(v, absorbed(v, state, plain), plain.skip(n as int)) == absorbed(
                    v,
                    state,
                    plain,
                ));
                assert(decryptor@.state == absorbed(v, state, plain));
                assert(rest.skip(n as int) =~= body.skip(pos + n));
                assert(fe_views(data@).take(pos + n) =~= done + plain) by {
                    let now = fe_views(data@).take(pos + n);
                    let want = done + plain;
                    assert(now.len() == want.len());
                    assert forall|i: int| 0 <= i < now.len() implies now[i] == want[i] by {
                        if i < pos {
                            assert(done[i] == fe_views(data@).take(pos as int)[i]);
                        } else {
                            let k = i - pos;
                            assert(data@[pos + k] == chunk@[k]);
                        }
                    }
                }
                assert((done + plain) + recovered(
                    v,
                    absorbed(v, state, plain),
                    rest.skip(n as int),
                ) =~= done + recovered(v, state, rest));
            }
            pos = pos + n;
        }
        proof {
            assert(body.skip(MESSAGE_CAPACITY as int) =~= Seq::<nat>::empty());
            assert(fe_views(data@).take(MESSAGE_CAPACITY as int) =~= fe_views(data@));
            assert(fe_views(data@) + Seq::<nat>::empty() =~= fe_views(data@));
        }
        let last = decryptor.words();
        if !parity.equals(&last[0]) {
            return Err(Error::InvalidCipherText);
        }
        Ok(data)
    }
}

} // verus!
