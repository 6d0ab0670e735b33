//! Text in, text out: the bytes of a text are cut into slices of 31 bytes,
//! the slices are encrypted as field elements, and the cipher text is written
//! as decimal numbers joined by commas.

use crate::bigint::{be_bytes, be_value, BigNat};
use crate::decimal::{
    big_to_decimal, decimal_repr, is_decimal, is_digit, joined, lemma_decimal_repr,
    COMMA,
};
use crate::encryption::round_trip::{lemma_decimal_words_read_back, lemma_encrypted_reduced};
use crate::encryptor::encryption::cipher::{
    cipher_spec, cipher_words, decrypted, encrypted, encrypted_str_to_fr_slices, is_cipher_text,
    Cipher, CIPHER_SIZE, MESSAGE_CAPACITY, SLICE_SIZE,
};
use crate::encryptor::grain::fe_views;
use crate::field::{modulus, Fe};
use crate::poseidon::hash::types::PoseidonHashValue;
use crate::strings::{lemma_ascii_is_utf8, string_from_utf8};
use vstd::prelude::*;
use vstd::slice::slice_subrange;
use vstd::string::StringSliceAdditionalSpecFns;
use vstd::utf8::{encode_utf8, valid_utf8};

verus! {

/// Why a cipher text in decimal could not be decrypted.
#[derive(Clone, Copy, Debug, PartialEq, Eq, Structural)]
pub enum DecryptError {
    /// The parity word is not the one that the key and the message give.
    InvalidCipherText,
    /// The recovered bytes are not well-formed UTF-8.
    MalformedPlainText,
}

impl DecryptError {
    /// The error in words.
    pub fn message(&self) -> (text: String)
        ensures
            *self == DecryptError::InvalidCipherText ==> text@ == "Invalid cipher text"@,
            *self == DecryptError::MalformedPlainText ==> text@ == "Malformed plain text"@,
    {
        match self {
            DecryptError::InvalidCipherText => "Invalid cipher text".to_owned(),
            DecryptError::MalformedPlainText => "Malformed plain text".to_owned(),
        }
    }
}

/// The two elements of a digest, as a key.
pub open spec fn key_values(key: &PoseidonHashValue) -> Seq<nat> {
    seq![key.value(0), key.value(1)]
}

/// The place at which slice `i` of a text's bytes starts: every 31st byte,
/// and the end of the text for the slices past it.
pub open spec fn slice_start(bytes: Seq<u8>, i: int) -> int {
    if SLICE_SIZE * i <= bytes.len() {
        SLICE_SIZE * i
    } else {
        bytes.len() as int
    }
}

/// Slice `i` of a text's bytes: bytes `31 i` up to `31 (i + 1)`, as far as
/// the text goes, whatever the characters are. The slices past the end of the
/// text are empty.
pub open spec fn byte_slice(bytes: Seq<u8>, i: int) -> Seq<u8> {
    bytes.subrange(slice_start(bytes, i), slice_start(bytes, i + 1))
}

/// The field elements of a text: its slices, each read as a big-endian
/// number.
pub open spec fn text_elements(bytes: Seq<u8>) -> Seq<nat> {
    Seq::new(MESSAGE_CAPACITY as nat, |i: int| be_value(byte_slice(bytes, i)) % modulus())
}

/// The decimal numbers of cipher words.
pub open spec fn decimal_words(words: Seq<nat>) -> Seq<Seq<u8>> {
    Seq::new(words.len(), |i: int| decimal_repr(words[i]))
}

/// The cipher text of a text under a key, in decimal.
pub open spec fn encrypted_text(bytes: Seq<u8>, key: Seq<nat>) -> Seq<u8> {
    joined(decimal_words(encrypted(cipher_spec(), key, text_elements(bytes))))
}

/// The bytes of a recovered slice: the number's bytes, highest first, less
/// one zero byte at the end if there is one.
pub open spec fn slot_bytes(n: nat) -> Seq<u8> {
    let bytes = be_bytes(n);
    if bytes.last() == 0 {
        bytes.drop_last()
    } else {
        bytes
    }
}

/// The bytes of the recovered slices, one after the other.
pub open spec fn slots_text(words: Seq<nat>) -> Seq<u8>
    decreases words.len(),
{
    if words.len() == 0 {
        Seq::empty()
    } else {
        slots_text(words.drop_last()) + slot_bytes(words.last())
    }
}

/// The text of a cipher text in decimal under a key, or why there is none:
/// the parity word is checked first, then the recovered bytes, all of them
/// together, for well-formed UTF-8.
pub open spec fn decrypted_text(text: Seq<u8>, key: Seq<nat>) -> Result<Seq<u8>, DecryptError> {
    match decrypted(cipher_spec(), key, cipher_words(text)) {
        None => Err(DecryptError::InvalidCipherText),
        Some(words) => if valid_utf8(slots_text(words)) {
            Ok(slots_text(words))
        } else {
            Err(DecryptError::MalformedPlainText)
        },
    }
}

/// The field elements of a text, as [`encrypt`] takes them: the bytes are cut
/// at every 31st byte, and each slice is read as a big-endian number.
pub fn text_to_fr_slices(data: &str) -> (elements: [Fe; 11])
    ensures
        fe_views(elements@) == text_elements(data.spec_bytes()),
{
    let bytes = data.as_bytes();
    let len = bytes.len();
    let mut elements: [Fe; 11] = [Fe::zero(); 11];
    let mut from: usize = 0;
    let mut i: usize = 0;
    while i < MESSAGE_CAPACITY
        invariant
            i <= MESSAGE_CAPACITY,
            len == bytes@.len(),
            from == slice_start(bytes@, i as int),
            forall|k: int|
                0 <= k < i ==> (#[trigger] elements@[k])@ == be_value(byte_slice(bytes@, k))
                    % modulus(),
        decreases MESSAGE_CAPACITY - i,
    {
        let to = if len - from > SLICE_SIZE {
            from + SLICE_SIZE
        } else {
            len
        };
        let number = BigNat::from_bytes_be(slice_subrange(bytes, from, to));
        elements[i] = Fe::from_big(&number);
        from = to;
        i = i + 1;
    }
    proof {
        assert(fe_views(elements@) =~= text_elements(bytes@));
    }
    elements
}

/// Whether a text is a cipher text in decimal: what [`decrypt`] asks of its
/// input.
pub fn check_cipher_text(encrypted_data: &str) -> (ok: bool)
    ensures
        ok == is_cipher_text(encrypted_data.spec_bytes()),
{
    encrypted_str_to_fr_slices(encrypted_data).is_some()
}

/// Encrypts a text under a key. The cipher text is twelve decimal numbers
/// joined by commas, which [`decrypt`] takes. Bytes of the text past the
/// 341st are not encrypted.
pub fn encrypt(data: &str, encryption_key: &PoseidonHashValue) -> (cipher_text: String)
    requires
        encryption_key.is_key(),
    ensures
        encode_utf8(cipher_text@) == encrypted_text(
            data.spec_bytes(),
            key_values(encryption_key),
        ),
        is_cipher_text(encode_utf8(cipher_text@)),
{
    let ghost bytes = data.spec_bytes();
    let ghost key_seq = key_values(encryption_key);
    let fr_slices = text_to_fr_slices(data);
    let key = encryption_key.to_key().unwrap();
    proof {
        assert(fe_views(key@) =~= key_seq);
    }
    let mut cipher = Cipher::new();
    let encrypted_data = cipher.encrypt(fr_slices.as_slice(), &key).unwrap();
    let ghost words = encrypted(cipher_spec(), key_seq, text_elements(bytes));
    let ghost pieces = decimal_words(words);
    let mut out: Vec<u8> = Vec::new();
    let mut i: usize = 0;
    while i < CIPHER_SIZE
        invariant
            i <= CIPHER_SIZE,
            words.len() == CIPHER_SIZE,
            pieces == decimal_words(words),
            fe_views(encrypted_data@) == words,
            out@ == joined(pieces.take(i as int)),
            forall|k: int| 0 <= k < out@.len() ==> #[trigger] out@[k] < 128,
        decreases CIPHER_SIZE - i,
    {
        let ghost before = out@;
        let digits = big_to_decimal(&encrypted_data[i].to_big());
        proof {
            assert(encrypted_data@[i as int]@ == words[i as int]);
            lemma_decimal_repr(words[i as int]);
            assert(digits@ == pieces[i as int]);
            assert(pieces.take(i + 1).drop_last() =~= pieces.take(i as int));
            assert(pieces.take(i + 1).last() == pieces[i as int]);
        }
        if i > 0 {
            out.push(COMMA);
        }
        let mut j: usize = 0;
        while j < digits.len()
            invariant
                j <= digits.len(),
                is_decimal(digits@),
                out@ == (if i > 0 {
                    before + seq![COMMA]
                } else {
                    before
                }) + digits@.take(j as int),
                forall|k: int| 0 <= k < before.len() ==> #[trigger] before[k] < 128,
            decreases digits.len() - j,
        {
            out.push(digits[j]);
            proof {
                assert(digits@.take(j + 1) =~= digits@.take(j as int).push(digits@[j as int]));
            }
            j = j + 1;
        }
        proof {
            assert(digits@.take(digits.len() as int) =~= digits@);
            if i == 0 {
                assert(before =~= Seq::<u8>::empty());
                assert(out@ =~= digits@);
            }
            assert forall|k: int| 0 <= k < out@.len() implies #[trigger] out@[k] < 128 by {
                let lead = if i > 0 {
                    before + seq![COMMA]
                } else {
                    before
                };
                if k >= lead.len() {
                    assert(is_digit(digits@[k - lead.len()]));
                }
            }
        }
        i = i + 1;
    }
    proof {
        assert(pieces.take(CIPHER_SIZE as int) =~= pieces);
        lemma_ascii_is_utf8(out@);
        lemma_encrypted_reduced(cipher_spec(), key_seq, text_elements(bytes));
        lemma_decimal_words_read_back(words);
    }
    string_from_utf8(out.as_slice()).unwrap()
}

/// Decrypts a cipher text in decimal under a key: the text that was
/// encrypted, or why there is none. A text that is not twelve decimal numbers
/// joined by commas is not taken: [`check_cipher_text`] tells.
pub fn decrypt(encrypted_data: &str, decryption_key: &PoseidonHashValue) -> (plain_text: Result<
    String,
    DecryptError,
>)
    requires
        is_cipher_text(encrypted_data.spec_bytes()),
        decryption_key.is_key(),
    ensures
        match plain_text {
            Ok(text) => decrypted_text(
                encrypted_data.spec_bytes(),
                key_values(decryption_key),
            ) == Ok::<Seq<u8>, DecryptError>(encode_utf8(text@)),
            Err(e) => decrypted_text(encrypted_data.spec_bytes(), key_values(decryption_key))
                == Err::<Seq<u8>, DecryptError>(e),
        },
{
    let ghost text = encrypted_data.spec_bytes();
    let ghost key_seq = key_values(decryption_key);
    let words = encrypted_str_to_fr_slices(encrypted_data).unwrap();
    let key = decryption_key.to_key().unwrap();
    proof {
        assert(fe_views(key@) =~= key_seq);
    }
    let mut cipher = Cipher::new();
    let plain = match cipher.decrypt(&words, &key) {
        Err(_) => {
            return Err(DecryptError::InvalidCipherText);
        },
        Ok(plain) => plain,
    };
    let ghost elements = fe_views(plain@);
    let mut out: Vec<u8> = Vec::new();
    let mut i: usize = 0;
    proof {
        assert(elements.take(0) =~= Seq::<nat>::empty());
    }
    while i < MESSAGE_CAPACITY
        invariant
            i <= MESSAGE_CAPACITY,
            elements == fe_views(plain@),
            out@ == slots_text(elements.take(i as int)),
        decreases MESSAGE_CAPACITY - i,
    {
        let mut slot = plain[i].to_big().to_bytes_be();
        proof {
            assert(plain@[i as int]@ == elements[i as int]);
        }
        if slot.len() > 0 && slot[slot.len() - 1] == 0 {
            slot.pop();
        }
        proof {
            assert(slot@ =~= slot_bytes(elements[i as int]));
            assert(elements.take(i + 1).drop_last() =~= elements.take(i as int));
            assert(elements.take(i + 1).last() == elements[i as int]);
        }
        let ghost before = out@;
        let mut j: usize = 0;
        while j < slot.len()
            invariant
                j <= slot.len(),
                out@ == before + slot@.take(j as int),
            decreases slot.len() - j,
        {
            out.push(slot[j]);
            proof {
                assert(slot@.take(j + 1) =~= slot@.take(j as int).push(slot@[j as int]));
            }
            j = j + 1;
        }
        proof {
            assert(slot@.take(slot.len() as int) =~= slot@);
        }
        i = i + 1;
    }
    proof {
        assert(elements.take(MESSAGE_CAPACITY as int) =~= elements);
    }
    match string_from_utf8(out.as_slice()) {
        None => Err(DecryptError::MalformedPlainText),
        Some(plain_text) => Ok(plain_text),
    }
}

} // verus!
