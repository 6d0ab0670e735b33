use pvde::encryptor::chip::{FULL_ROUND, PARTIAL_ROUND};
use pvde::encryptor::encryption::chip::{EncChip, EncryptionCircuit};
use pvde::encryptor::encryption::cipher::{Cipher, Error, CIPHER_SIZE, MESSAGE_CAPACITY};
use pvde::encryptor::encryption::types::EncryptionKey;
use pvde::encryptor::encryptor::{Encryptor, Phase};
use pvde::encryptor::grain::Grain;
use pvde::encryptor::hash::types::HashValue;
use pvde::encryptor::permutation::pow5;
use pvde::encryptor::spec::{Spec, RATE, T};
use pvde::field::Fe;
use pvde::poseidon::encryption::types::PoseidonEncryptionKey;
use pvde::poseidon::hash::chip::PoseidonHashChip;

fn same(a: &[Fe], b: &[Fe]) -> bool {
    a.len() == b.len() && a.iter().zip(b.iter()).all(|(x, y)| x.equals(y))
}

fn message() -> Vec<Fe> {
    (0..MESSAGE_CAPACITY as u64).map(|i| Fe::from_u64(1000 + i * i)).collect()
}

#[test]
fn test_encryption() {
    let mut one = [0u8; 32];
    one[0] = 1;
    let hash_value = HashValue::new([one; 2]);

    let mut cipher = Cipher::new();
    let data = [Fe::zero(); MESSAGE_CAPACITY];

    let symmetric_key = [
        Fe::from_bytes(hash_value.get(0)).unwrap(),
        Fe::from_bytes(hash_value.get(1)).unwrap(),
    ];

    println!("data: {:?}", data);

    let cipher_text = cipher.encrypt(&data, &symmetric_key).unwrap();
    println!("encrypted: {:?}", cipher_text);
    let decrypted = cipher.decrypt(&cipher_text, &symmetric_key).unwrap();
    println!("decrypted: {:?}", decrypted);
    assert!(same(&decrypted, &data));
}

#[test]
fn test_pos_enc() {
    let key = EncryptionKey { key0: Fe::from_u64(0x1234_5678_9abc_def0), key1: Fe::from_u64(77) };

    let mut ref_pos_enc = Cipher::new();
    let inputs = (0..(MESSAGE_CAPACITY)).map(|_| Fe::one()).collect::<Vec<Fe>>();

    let ref_cipher = ref_pos_enc.encrypt(&inputs, &[key.key0, key.key1]).unwrap();

    let circuit = EncryptionCircuit {
        data: inputs,
        key: [key.key0, key.key1],
        expected: ref_cipher.to_vec(),
    };
    assert!(circuit.is_satisfied());
}

#[test]
fn test_example_hash() {
    let number_of_inputs = 3;
    let mut ref_hasher = Encryptor::new_hash(8, 57);
    let inputs: Vec<Fe> = (0..number_of_inputs).map(|_| Fe::zero()).collect::<Vec<Fe>>();

    ref_hasher.update(&inputs[..]);
    let expected = ref_hasher.squeeze(1);
    let expected_out: Vec<Fe> = (T - RATE..T).map(|i| expected[i]).collect();

    let mut chip = PoseidonHashChip::new();
    for e in inputs.iter() {
        chip.update(&[*e]);
    }
    let hash_output = chip.hash();
    for i in 0..RATE {
        assert!(hash_output[T - RATE + i].equals(&expected_out[i]));
    }
}

#[test]
fn round_constants_are_reproducible_and_reduced() {
    assert_eq!(FULL_ROUND, 8);
    assert_eq!(PARTIAL_ROUND, 57);
    let a = Spec::new(FULL_ROUND, PARTIAL_ROUND);
    let b = Spec::new(FULL_ROUND, PARTIAL_ROUND);
    assert_eq!(a.full_rounds(), 8);
    assert_eq!(a.partial_rounds(), 57);
    assert_eq!(a.round_count(), 65);
    for r in 0..65 {
        for i in 0..T {
            assert!(a.constant(r, i).equals(b.constant(r, i)));
            assert!(a.constant(r, i).is_reduced());
        }
    }
    assert!(!a.constant(0, 0).equals(a.constant(0, 1)));
}

#[test]
fn mixing_matrix_is_a_cauchy_matrix() {
    let spec = Spec::new(FULL_ROUND, PARTIAL_ROUND);
    // 1 / m[i][j] = x_i + y_j, so 1/m[0][0] - 1/m[0][1] == 1/m[1][0] - 1/m[1][1].
    let inv = |i: usize, j: usize| spec.mds_entry(i, j).invert_or_zero();
    let left = inv(0, 0).sub(&inv(0, 1));
    let right = inv(1, 0).sub(&inv(1, 1));
    assert!(left.equals(&right));
    assert!(!spec.mds_entry(0, 0).equals(&Fe::zero()));
}

#[test]
fn other_round_counts_give_other_constants() {
    let a = Spec::new(8, 57);
    let b = Spec::new(8, 56);
    assert!(!a.constant(0, 0).equals(b.constant(0, 0)));
}

#[test]
fn generator_draws_are_reproducible() {
    let mut a = Grain::new(5, 8, 57);
    let mut b = Grain::new(5, 8, 57);
    let mut ones = 0;
    for _ in 0..256 {
        let bit = a.next_bit();
        assert_eq!(bit, b.next_bit());
        if bit {
            ones += 1;
        }
    }
    assert!(ones > 64 && ones < 192);
    let x = a.next_element(16);
    let y = b.next_element(16);
    assert!(x.equals(&y));
    assert_eq!(a.next_elements(3, 0).len(), 3);
    let number = b.next_number();
    assert_eq!(number[31] & 0xc0, 0);
}

#[test]
fn fifth_power() {
    assert!(pow5(&Fe::from_u64(3)).equals(&Fe::from_u64(243)));
    assert!(pow5(&Fe::zero()).equals(&Fe::zero()));
}

#[test]
fn permutation_moves_every_word_and_is_a_function() {
    let spec = Spec::new(FULL_ROUND, PARTIAL_ROUND);
    let start = [Fe::from_u64(1), Fe::from_u64(2), Fe::from_u64(3), Fe::from_u64(4), Fe::from_u64(5)];
    let mut a = start;
    let mut b = start;
    spec.permute(&mut a);
    spec.permute(&mut b);
    assert!(same(&a, &b));
    for i in 0..T {
        assert!(!a[i].equals(&start[i]));
    }
    let mut c = start;
    c[4] = Fe::from_u64(6);
    spec.permute(&mut c);
    assert!(!c[0].equals(&a[0]));
}

#[test]
fn update_only_queues() {
    let mut sponge = Encryptor::new_hash(FULL_ROUND, PARTIAL_ROUND);
    let before = sponge.words();
    assert_eq!(sponge.phase(), Phase::Absorbing);
    sponge.update(&[Fe::from_u64(1), Fe::from_u64(2), Fe::from_u64(3), Fe::from_u64(4), Fe::from_u64(5)]);
    assert!(same(&sponge.words(), &before));
    assert_eq!(sponge.phase(), Phase::Absorbing);
    let after = sponge.squeeze(1);
    assert_eq!(sponge.phase(), Phase::Squeezed);
    assert!(!after[1].equals(&before[1]));
    assert!(same(&sponge.words(), &after));
}

#[test]
fn initial_states_differ_by_mode_and_key() {
    let hash = Encryptor::new_hash(FULL_ROUND, PARTIAL_ROUND).words();
    let enc = Encryptor::new_enc(FULL_ROUND, PARTIAL_ROUND, Fe::from_u64(7), Fe::from_u64(9)).words();
    assert!(hash[0].equals(&Fe::from_u64(1 << 32).mul(&Fe::from_u64(1 << 32))));
    assert!(enc[0].equals(&Fe::from_u64(1 << 32)));
    assert!(hash[2].equals(&Fe::zero()) && hash[3].equals(&Fe::zero()));
    assert!(enc[2].equals(&Fe::from_u64(7)) && enc[3].equals(&Fe::from_u64(9)));
    assert!(enc[1].equals(&Fe::zero()) && enc[4].equals(&Fe::zero()) && hash[1].equals(&Fe::zero()));
}

#[test]
fn a_full_last_chunk_costs_one_more_permutation() {
    let spec = Spec::new(FULL_ROUND, PARTIAL_ROUND);
    let inputs = [Fe::from_u64(1), Fe::from_u64(2), Fe::from_u64(3), Fe::from_u64(4)];
    let mut sponge = Encryptor::new_hash(FULL_ROUND, PARTIAL_ROUND);
    let mut by_hand = sponge.words();
    sponge.update(&inputs);
    let squeezed = sponge.squeeze(0);
    for i in 0..4 {
        by_hand[i + 1] = by_hand[i + 1].add(&inputs[i]);
    }
    spec.permute(&mut by_hand);
    spec.permute(&mut by_hand);
    assert!(same(&squeezed, &by_hand));

    let mut partial = Encryptor::new_hash(FULL_ROUND, PARTIAL_ROUND);
    let mut by_hand = partial.words();
    partial.update(&inputs[..3]);
    let squeezed = partial.squeeze(0);
    for i in 0..3 {
        by_hand[i + 1] = by_hand[i + 1].add(&inputs[i]);
    }
    spec.permute(&mut by_hand);
    assert!(same(&squeezed, &by_hand));
}

#[test]
fn queued_in_one_go_or_one_by_one_is_the_same() {
    let inputs = message();
    let mut a = Encryptor::new_hash(FULL_ROUND, PARTIAL_ROUND);
    a.update(&inputs);
    let mut b = Encryptor::new_hash(FULL_ROUND, PARTIAL_ROUND);
    for e in inputs.iter() {
        b.update(&[*e]);
    }
    assert!(same(&a.squeeze(1), &b.squeeze(1)));
}

#[test]
fn released_words_are_state_plus_input() {
    let mut sponge = Encryptor::new_enc(FULL_ROUND, PARTIAL_ROUND, Fe::from_u64(3), Fe::from_u64(4));
    let state = sponge.squeeze(0);
    let inputs = [Fe::from_u64(100), Fe::from_u64(200)];
    sponge.update(&inputs);
    let words = sponge.absorb_and_release();
    assert_eq!(words.len(), 2);
    assert!(words[0].equals(&state[1].add(&inputs[0])));
    assert!(words[1].equals(&state[2].add(&inputs[1])));
    assert!(!sponge.words()[1].equals(&words[0]));
}

#[test]
fn cipher_round_trip() {
    let key = [Fe::from_u64(11), Fe::from_u64(22)];
    let data = message();
    let mut cipher = Cipher::new();
    let cipher_text = cipher.encrypt(&data, &key).unwrap();
    assert!(same(&cipher.cipher, &cipher_text));
    assert!(!cipher_text[0].equals(&data[0]));
    let plain = cipher.decrypt(&cipher_text, &key).unwrap();
    assert!(same(&plain, &data));
}

#[test]
fn cipher_words_chain_through_the_permutation() {
    let key = [Fe::from_u64(11), Fe::from_u64(22)];
    let mut a = message();
    let mut cipher = Cipher::new();
    let first = cipher.encrypt(&a, &key).unwrap();
    a[0] = a[0].add(&Fe::one());
    let second = cipher.encrypt(&a, &key).unwrap();
    assert!(second[0].equals(&first[0].add(&Fe::one())));
    for i in 1..4 {
        assert!(second[i].equals(&first[i]));
    }
    for i in 4..CIPHER_SIZE {
        assert!(!second[i].equals(&first[i]));
    }
}

#[test]
fn a_changed_parity_word_is_refused() {
    let key = [Fe::from_u64(5), Fe::from_u64(6)];
    let mut cipher = Cipher::new();
    let mut cipher_text = cipher.encrypt(&message(), &key).unwrap();
    cipher_text[MESSAGE_CAPACITY] = cipher_text[MESSAGE_CAPACITY].add(&Fe::one());
    assert!(matches!(cipher.decrypt(&cipher_text, &key), Err(Error::InvalidCipherText)));
}

#[test]
fn a_wrong_key_is_refused() {
    let mut cipher = Cipher::new();
    let cipher_text = cipher.encrypt(&message(), &[Fe::from_u64(5), Fe::from_u64(6)]).unwrap();
    let result = cipher.decrypt(&cipher_text, &[Fe::from_u64(5), Fe::from_u64(7)]);
    assert!(matches!(result, Err(Error::InvalidCipherText)));
    assert_eq!(Error::InvalidCipherText.message(), "Invalid cipher text");
}

#[test]
fn a_changed_cipher_word_is_refused() {
    let key = [Fe::from_u64(5), Fe::from_u64(6)];
    let mut cipher = Cipher::new();
    let mut cipher_text = cipher.encrypt(&message(), &key).unwrap();
    cipher_text[3] = cipher_text[3].add(&Fe::one());
    assert!(matches!(cipher.decrypt(&cipher_text, &key), Err(Error::InvalidCipherText)));
}

#[test]
fn short_data_leaves_zero_words() {
    let key = [Fe::from_u64(1), Fe::from_u64(2)];
    let mut cipher = Cipher::new();
    let cipher_text = cipher.encrypt(&[Fe::from_u64(9)], &key).unwrap();
    for i in 1..MESSAGE_CAPACITY {
        assert!(cipher_text[i].equals(&Fe::zero()));
    }
    assert!(!cipher_text[0].equals(&Fe::zero()));
}

#[test]
fn cipher_sizes() {
    assert_eq!(Cipher::capacity(), 11);
    assert_eq!(Cipher::cipher_size(), 12);
    assert_eq!(Cipher::new().cipher_byte_size, 381);
    assert_eq!(Cipher::default().cipher_byte_size, 0);
    let state = Cipher::new().initial_state(Fe::from_u64(42));
    assert!(state[0].equals(&Fe::zero()) && state[1].equals(&Fe::zero()));
    assert!(state[2].equals(&Fe::from_u64(42)));
}

#[test]
fn keys_start_at_zero() {
    let mut key = EncryptionKey::init();
    assert!(key.key0.equals(&Fe::zero()) && key.key1.equals(&Fe::zero()));
    key.set_key(Fe::from_u64(1), Fe::from_u64(2));
    assert!(key.key0.equals(&Fe::from_u64(1)) && key.key1.equals(&Fe::from_u64(2)));
    assert!(EncryptionKey::default().key1.equals(&Fe::zero()));
    let mut other = PoseidonEncryptionKey::init();
    other.set_key(Fe::from_u64(3), Fe::from_u64(4));
    assert!(other.key0.equals(&Fe::from_u64(3)) && other.key1.equals(&Fe::from_u64(4)));
    assert!(PoseidonEncryptionKey::default().key0.equals(&Fe::zero()));
}

#[test]
fn the_chip_releases_the_cipher_text() {
    let key = [Fe::from_u64(31), Fe::from_u64(41)];
    let data = message();
    let mut chip = EncChip::new(key);
    assert!(chip.pose_key0.equals(&key[0]) && chip.pose_key1.equals(&key[1]));
    chip.chip.squeeze(0);
    chip.chip.update(&data);
    let released = chip.absorb_and_relese();
    let expected = Cipher::new().encrypt(&data, &key).unwrap();
    assert!(same(&released, &expected));
}

#[test]
fn the_circuit_refuses_another_cipher_text() {
    let key = [Fe::from_u64(31), Fe::from_u64(41)];
    let data = message();
    let mut expected = Cipher::new().encrypt(&data, &key).unwrap().to_vec();
    expected[5] = expected[5].add(&Fe::one());
    let circuit = EncryptionCircuit { data, key, expected };
    assert!(!circuit.is_satisfied());
}
