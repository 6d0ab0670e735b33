use pvde::bigint::BigNat;
use pvde::encryption::poseidon_encryption::{
    check_cipher_text, decrypt, encrypt, text_to_fr_slices, DecryptError,
};
use pvde::encryption::poseidon_encryption_circuit::PoseidonEncryptionCircuit;
use pvde::encryption::poseidon_encryption_zkp::{
    poseidon_encryption_public_inputs, PoseidonEncryptionPublicInput,
    PoseidonEncryptionSecretInput,
};
use pvde::encryptor::encryption::cipher::{
    data_to_slices, encrypted_str_to_fr_slices, str_slices_to_fr_slices, Cipher,
};
use pvde::encryptor::hash::hash;
use pvde::field::Fe;
use pvde::poseidon::hash::types::PoseidonHashValue;

fn one_bytes() -> [u8; 32] {
    Fe::one().to_bytes()
}

fn key() -> PoseidonHashValue {
    PoseidonHashValue::new([one_bytes(); 2])
}

#[test]
fn encrypt_end_decrypt_test() {
    let data = "123";
    let hash_value = PoseidonHashValue::new([one_bytes(); 2]);

    let encrypted_data = encrypt(data, &hash_value);
    let decrypted_data = decrypt(&encrypted_data, &hash_value).unwrap();

    assert!(data == decrypted_data)
}

#[test]
fn short_text_is_cut_into_one_slice() {
    let slices = data_to_slices("stompesi");
    assert_eq!(slices[0], "stompesi");
    for i in 1..11 {
        assert_eq!(slices[i], "");
    }
}

#[test]
fn long_text_is_cut_every_31_bytes_and_dropped_after_341() {
    let text: String = (0..400).map(|i| (b'a' + (i % 26) as u8) as char).collect();
    let slices = data_to_slices(&text);
    for i in 0..11 {
        assert_eq!(slices[i], &text[31 * i..31 * (i + 1)]);
    }
    let text = "x".repeat(40);
    let slices = data_to_slices(&text);
    assert_eq!(slices[0].len(), 31);
    assert_eq!(slices[1].len(), 9);
    assert_eq!(slices[2], "");
    assert_eq!(data_to_slices("")[0], "");
}

#[test]
fn no_slice_ends_inside_a_character() {
    // thirty bytes, then a character of two bytes across the 31st
    let text = format!("{}é", "a".repeat(30));
    assert_eq!(text.len(), 32);
    let slices = data_to_slices(&text);
    assert_eq!(slices[0], "a".repeat(30));
    assert_eq!(slices[1], "é");
    for i in 2..11 {
        assert_eq!(slices[i], "");
    }
    // a character that ends at the 31st byte stays in its slice
    let text = format!("{}é", "a".repeat(29));
    let slices = data_to_slices(&text);
    assert_eq!(slices[0], text);
    assert_eq!(slices[1], "");
    // characters of three and four bytes
    let text = format!("{}世{}😀b", "a".repeat(29), "c".repeat(27));
    let slices = data_to_slices(&text);
    assert_eq!(slices[0], "a".repeat(29));
    assert_eq!(slices[1], format!("世{}", "c".repeat(27)));
    assert_eq!(slices[2], "😀b");
}

#[test]
fn the_slices_are_the_text_as_far_as_they_reach() {
    let samples = [
        "grüße, 世界! 😀 ".repeat(12),
        "é".repeat(170),
        "😀".repeat(60),
        "x".repeat(341),
        "x".repeat(500),
        String::new(),
    ];
    for text in samples.iter() {
        let slices = data_to_slices(text);
        let joined: String = slices.concat();
        assert!(text.starts_with(&joined));
        for slice in slices.iter() {
            assert!(slice.len() <= 31);
        }
        for i in 0..10 {
            if !slices[i + 1].is_empty() {
                assert!(slices[i].len() >= 28);
            }
        }
        if text.len() <= 308 {
            assert_eq!(joined, *text);
        }
    }
    // eleven slices of thirty bytes each cannot hold 340 bytes
    let text = "é".repeat(170);
    assert_eq!(data_to_slices(&text).concat(), "é".repeat(165));
}

#[test]
fn slices_are_big_endian_numbers() {
    let mut slices = [""; 11];
    slices[0] = "A";
    slices[1] = "AB";
    slices[2] = "Hello world!";
    let elements = str_slices_to_fr_slices(slices);
    assert!(elements[0].equals(&Fe::from_u64(65)));
    assert!(elements[1].equals(&Fe::from_u64(16706)));
    let hello = BigNat::from_bytes_be(b"Hello world!");
    assert!(elements[2].equals(&Fe::from_big(&hello)));
    assert!(elements[3].equals(&Fe::zero()));
}

#[test]
fn cipher_text_in_decimal_is_read() {
    let words = encrypted_str_to_fr_slices("1,2,3,4,5,6,7,8,9,10,11,12").unwrap();
    for i in 0..12 {
        assert!(words[i].equals(&Fe::from_u64(i as u64 + 1)));
    }
    let big = "21888242871839275222246405745257275088548364400416034343698204186575808495620";
    let text = format!("{big},0,0,0,0,0,0,0,0,0,0,0");
    let words = encrypted_str_to_fr_slices(&text).unwrap();
    assert!(words[0].equals(&Fe::from_u64(3)));
}

#[test]
fn malformed_cipher_text_is_not_read() {
    assert!(encrypted_str_to_fr_slices("1,2,3").is_none());
    assert!(encrypted_str_to_fr_slices("1,2,3,4,5,6,7,8,9,10,11,12,13").is_none());
    assert!(encrypted_str_to_fr_slices("1,2,3,4,5,6,7,8,9,10,11,").is_none());
    assert!(encrypted_str_to_fr_slices("1,2,3,4,5,6,7,8,9,10,11,x").is_none());
    assert!(encrypted_str_to_fr_slices("").is_none());
}

#[test]
fn cipher_text_is_twelve_decimal_numbers() {
    let encrypted = encrypt("stompesi", &key());
    let tokens: Vec<&str> = encrypted.split(',').collect();
    assert_eq!(tokens.len(), 12);
    for token in tokens.iter() {
        assert!(!token.is_empty());
        assert!(token.bytes().all(|b| b.is_ascii_digit()));
    }
    let words = encrypted_str_to_fr_slices(&encrypted).unwrap();
    let slices = text_to_fr_slices("stompesi");
    let key_words = key().to_key().unwrap();
    let expected = Cipher::new().encrypt(&slices, &key_words).unwrap();
    for i in 0..12 {
        assert!(words[i].equals(&expected[i]));
    }
}

#[test]
fn text_round_trips() {
    let samples = [
        "".to_string(),
        "stompesi".to_string(),
        "x".repeat(31),
        "y".repeat(32),
        "z".repeat(341),
        "grüße, 世界! ".repeat(5),
        "line\nbreak\tand \"quotes\"".to_string(),
        "é".repeat(170),
        "世".repeat(113),
        "😀".repeat(85),
        format!("a{}", "é".repeat(170)),
    ];
    for text in samples.iter() {
        assert!(text.len() <= 341);
        let encrypted = encrypt(text, &key());
        assert!(check_cipher_text(&encrypted));
        assert_eq!(decrypt(&encrypted, &key()).unwrap(), *text);
    }
}

#[test]
fn text_is_cut_at_every_31st_byte_whatever_the_characters() {
    // thirty bytes, then a character of two bytes across the 31st
    let text = format!("{}é", "a".repeat(30));
    let elements = text_to_fr_slices(&text);
    let mut first = vec![b'a'; 30];
    first.push(0xc3);
    assert!(elements[0].equals(&Fe::from_big(&BigNat::from_bytes_be(&first))));
    assert!(elements[1].equals(&Fe::from_u64(0xa9)));
    for i in 2..11 {
        assert!(elements[i].equals(&Fe::zero()));
    }
    // where every character is one byte, these are the slices of the text
    let text: String = (0..400).map(|i| (b'a' + (i % 26) as u8) as char).collect();
    let elements = text_to_fr_slices(&text);
    let slices = str_slices_to_fr_slices(data_to_slices(&text));
    for i in 0..11 {
        assert!(elements[i].equals(&slices[i]));
        let bytes = &text.as_bytes()[31 * i..31 * (i + 1)];
        assert!(elements[i].equals(&Fe::from_big(&BigNat::from_bytes_be(bytes))));
    }
    let elements = text_to_fr_slices("");
    for i in 0..11 {
        assert!(elements[i].equals(&Fe::zero()));
    }
}

#[test]
fn text_with_a_character_across_the_31st_byte_round_trips() {
    let text = format!("{}é and more", "a".repeat(30));
    let encrypted = encrypt(&text, &key());
    assert_eq!(decrypt(&encrypted, &key()).unwrap(), text);
    let text = "世界".repeat(50);
    assert_eq!(text.len(), 300);
    let encrypted = encrypt(&text, &key());
    assert_eq!(decrypt(&encrypted, &key()).unwrap(), text);
}

#[test]
fn text_of_340_bytes_in_characters_of_two_bytes_round_trips() {
    let text = "é".repeat(170);
    assert_eq!(text.len(), 340);
    let encrypted = encrypt(&text, &key());
    assert_eq!(decrypt(&encrypted, &key()).unwrap(), text);
}

#[test]
fn text_cut_inside_a_character_at_the_capacity_does_not_come_back() {
    // byte 341 is the first of the two bytes of a character
    let text = "é".repeat(171);
    assert_eq!(text.len(), 342);
    let encrypted = encrypt(&text, &key());
    assert_eq!(decrypt(&encrypted, &key()), Err(DecryptError::MalformedPlainText));
    // byte 341 ends a character
    let text = format!("q{}", "é".repeat(171));
    let encrypted = encrypt(&text, &key());
    assert_eq!(decrypt(&encrypted, &key()).unwrap(), format!("q{}", "é".repeat(170)));
}

#[test]
fn text_past_the_capacity_is_dropped() {
    let text = "q".repeat(350);
    let encrypted = encrypt(&text, &key());
    assert_eq!(decrypt(&encrypted, &key()).unwrap(), "q".repeat(341));
}

#[test]
fn zero_bytes_at_the_edge_of_a_slice_are_lost() {
    let encrypted = encrypt("a\0", &key());
    assert_eq!(decrypt(&encrypted, &key()).unwrap(), "a");
    let encrypted = encrypt("\0b", &key());
    assert_eq!(decrypt(&encrypted, &key()).unwrap(), "b");
}

#[test]
fn decryption_under_another_key_is_refused() {
    let encrypted = encrypt("stompesi", &key());
    let other = PoseidonHashValue::new([one_bytes(), Fe::from_u64(2).to_bytes()]);
    assert_eq!(decrypt(&encrypted, &other), Err(DecryptError::InvalidCipherText));
    assert_eq!(DecryptError::InvalidCipherText.message(), "Invalid cipher text");
}

#[test]
fn a_flipped_parity_word_is_refused_for_every_sample() {
    let texts = ["", "stompesi", "another plain text"];
    let keys = [key(), PoseidonHashValue::new([Fe::from_u64(9).to_bytes(), one_bytes()])];
    for text in texts.iter() {
        for k in keys.iter() {
            let encrypted = encrypt(text, k);
            let mut tokens: Vec<String> = encrypted.split(',').map(|s| s.to_string()).collect();
            let parity = encrypted_str_to_fr_slices(&encrypted).unwrap()[11];
            let flipped = parity.add(&Fe::one());
            tokens[11] = num_bigint::BigUint::from_bytes_le(&flipped.to_bytes()).to_string();
            let tampered = tokens.join(",");
            assert_eq!(decrypt(&tampered, k), Err(DecryptError::InvalidCipherText));
        }
    }
}

#[test]
fn malformed_cipher_text_is_told_before_decryption() {
    assert!(!check_cipher_text("1,2,3"));
    assert!(!check_cipher_text("not a cipher text"));
    assert!(!check_cipher_text(""));
    assert!(!check_cipher_text("1,2,3,4,5,6,7,8,9,10,11,12,13"));
    assert!(!check_cipher_text("1,2,3,4,5,6,7,8,9,10,11,-12"));
    assert!(check_cipher_text("1,2,3,4,5,6,7,8,9,10,11,12"));
    assert!(check_cipher_text(&encrypt("stompesi", &key())));
}

#[test]
fn plain_text_that_is_not_utf8_is_reported() {
    let mut data = [Fe::zero(); 11];
    data[0] = Fe::from_u64(0xff);
    let cipher_text = Cipher::new().encrypt(&data, &key().to_key().unwrap()).unwrap();
    let text: Vec<String> = cipher_text
        .iter()
        .map(|w| num_bigint::BigUint::from_bytes_le(&w.to_bytes()).to_string())
        .collect();
    assert!(check_cipher_text(&text.join(",")));
    assert_eq!(decrypt(&text.join(","), &key()), Err(DecryptError::MalformedPlainText));
    // two slots that are well-formed only together are one character
    let mut data = [Fe::zero(); 11];
    data[0] = Fe::from_u64(0xc3);
    data[1] = Fe::from_u64(0xa9);
    let cipher_text = Cipher::new().encrypt(&data, &key().to_key().unwrap()).unwrap();
    let text: Vec<String> = cipher_text
        .iter()
        .map(|w| num_bigint::BigUint::from_bytes_le(&w.to_bytes()).to_string())
        .collect();
    assert_eq!(decrypt(&text.join(","), &key()).unwrap(), "é");
    assert_eq!(DecryptError::MalformedPlainText.message(), "Malformed plain text");
}

#[test]
fn digests_are_keys() {
    let digest = PoseidonHashValue::new([one_bytes(), Fe::from_u64(5).to_bytes()]);
    assert_eq!(digest.get(0), &one_bytes());
    assert_eq!(digest.get(1)[0], 5);
    let words = digest.to_key().unwrap();
    assert!(words[0].equals(&Fe::one()) && words[1].equals(&Fe::from_u64(5)));
    assert!(PoseidonHashValue::new([[0xff; 32], one_bytes()]).to_key().is_none());
    assert_eq!(PoseidonHashValue::default().get(1), &[0u8; 32]);
    let made = PoseidonHashValue::from_elements(&Fe::from_u64(3), &Fe::from_u64(4));
    assert_eq!(made.get(0)[0], 3);
    assert_eq!(made.clone().get(1)[0], 4);
}

#[test]
fn encryption_instance_is_digest_then_cipher_text() {
    let k = BigNat::from_u64(123456789);
    let digest = hash(&k);
    let k_hash_value = PoseidonHashValue::new([*digest.get(0), *digest.get(1)]);
    let secret = PoseidonEncryptionSecretInput { data: "stompesi".to_string(), k };
    let public = PoseidonEncryptionPublicInput {
        encrypted_data: encrypt(&secret.data, &k_hash_value),
        k_hash_value,
    };
    let inputs = poseidon_encryption_public_inputs(&public).unwrap();
    assert_eq!(inputs.len(), 14);

    let circuit = PoseidonEncryptionCircuit {
        data: text_to_fr_slices(&secret.data),
        k_limbs: pvde::big_integer::decompose_big(&secret.k, 32, 64),
    };
    let instance = circuit.instance();
    assert_eq!(instance.len(), 14);
    for i in 0..14 {
        assert!(instance[i].equals(&inputs[i]));
    }

    let changed = PoseidonEncryptionCircuit {
        data: text_to_fr_slices("Changed data"),
        k_limbs: pvde::big_integer::decompose_big(&secret.k, 32, 64),
    };
    let other = changed.instance();
    assert!(other[12].equals(&inputs[12]) && other[13].equals(&inputs[13]));
    assert!(!other[0].equals(&inputs[0]));
    let digest_words = public.k_hash_value.to_key().unwrap();
    assert!(inputs[12].equals(&digest_words[0]) && inputs[13].equals(&digest_words[1]));

    let empty = PoseidonEncryptionCircuit::create_empty_circuit();
    assert_eq!(empty.k_limbs.len(), 32);
    assert_eq!(empty.instance().len(), 14);

    let bad = PoseidonEncryptionPublicInput {
        encrypted_data: "1,2".to_string(),
        k_hash_value: public.k_hash_value,
    };
    assert!(poseidon_encryption_public_inputs(&bad).is_none());
}
