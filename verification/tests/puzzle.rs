use num_bigint::{BigUint, RandomBits};
use pvde::bigint::BigNat;
use pvde::decimal::parse_decimal;
use pvde::encryption::poseidon_encryption::{decrypt, encrypt};
use pvde::encryptor::hash::types::HashValue;
use pvde::encryptor::hash::{hash, hash_limbs, pack_limbs};
use pvde::field::Fe;
use pvde::modular::sequential_squares;
use pvde::poseidon::hash::types::PoseidonHashValue;
use pvde::time_lock_puzzle::key_validation_circuit::{
    KeyValidationChip, KeyValidationCircuit, EXP_LIMB_BITS,
};
use pvde::time_lock_puzzle::key_validation_zkp::{
    key_validation_public_inputs, KeyValidationParam, KeyValidationPublicInput,
    KeyValidationSecretInput,
};
use pvde::time_lock_puzzle::sigma_protocol::{
    generate_sigma_protocol_public_input, get_c, setup, verify, SigmaProtocolParam,
};
use pvde::time_lock_puzzle::{
    check_sigma_stage, generate_time_lock_puzzle, generate_time_lock_puzzle_param,
    generate_time_lock_puzzle_param_with, generate_time_lock_puzzle_public_input,
    get_decryption_key, key_validation_inputs, prove_time_lock_puzzle_validity,
    solve_time_lock_puzzle, standard_modulus_big, time_lock_puzzle_from,
    time_lock_puzzle_public_input_from, verify_time_lock_puzzle_zkp, TimeLockPuzzleParam,
    TimeLockPuzzleSecretInput, G, N,
};
use rand::{thread_rng, Rng};

fn to_big(x: &BigNat) -> BigUint {
    BigUint::from_bytes_le(&x.bytes)
}

fn from_big(x: &BigUint) -> BigNat {
    BigNat { bytes: x.to_bytes_le() }
}

fn random(bits: u64) -> BigNat {
    from_big(&thread_rng().sample::<BigUint, _>(RandomBits::new(bits)))
}

fn small_param() -> TimeLockPuzzleParam {
    // 1000003 * 998244353: a modulus small enough to follow by hand.
    generate_time_lock_puzzle_param_with(&BigNat::from_u64(5), &BigNat::from_u64(998247347733059), 16)
}

#[test]
fn sigma_protocol_verify_valid_test() {
    let sigma_protocol_param = setup(2048);

    let r = random(128);
    let s = random(128);

    let sigma_protocol_public_input =
        generate_sigma_protocol_public_input(&sigma_protocol_param, &r, &s);

    let is_valid = verify(&sigma_protocol_public_input, &sigma_protocol_param);

    println!("is_valid : {:?}", is_valid);
    assert!(is_valid);
}

#[test]
fn sigma_protocol_verify_invalid_test() {
    let sigma_protocol_param = setup(2048);

    let r = random(128);
    let s = random(128);

    let mut sigma_protocol_public_input =
        generate_sigma_protocol_public_input(&sigma_protocol_param, &r, &s);

    // It is invalid
    let r1 = random(128);

    sigma_protocol_public_input.r1 = r1;

    let is_valid = verify(&sigma_protocol_public_input, &sigma_protocol_param);

    println!("is_valid : {:?}", is_valid);
    assert!(!is_valid);
}

#[test]
fn the_standard_constants_agree() {
    let n = parse_decimal(N.as_bytes()).unwrap();
    assert!(n.equals(&standard_modulus_big()));
    assert_eq!(n.bits(), 2048);
    assert!(parse_decimal(G.as_bytes()).unwrap().equals(&BigNat::from_u64(5)));
}

#[test]
fn standard_parameters_of_small_depth() {
    let param = generate_time_lock_puzzle_param(4);
    assert!(param.g.equals(&BigNat::from_u64(5)));
    assert!(param.n.equals(&standard_modulus_big()));
    // 5^(2^5), which is below the modulus
    assert!(param.y_two.equals(&parse_decimal(b"23283064365386962890625").unwrap()));
    let sigma = setup(4);
    assert!(sigma.y_two.equals(&param.y_two) && sigma.g.equals(&param.g));
}

#[test]
fn standard_parameters_of_depth_2048() {
    let param = generate_time_lock_puzzle_param(2048);
    let expected = parse_decimal(b"11995616754380938812550640411494812044094384329199998933674708750208596323000697847434704720491633011484041273718463049154705141708114693567240526449905677033439631300138661104291144086429909940395475711135673594693264385263518411266921077552514635667673873407163859589805368499312846239107994689721787443126696616361525953784736499878918590200856736790365781749776570311069691241418287557933774638436411669234132050255305427235511352547329569718643519805676351608454054731107640862196844096402666100983872830488588570144637401484852534603788258805900258419162287002007822349890602284257276336957659494242679685918883").unwrap();
    assert!(param.y_two.equals(&expected));
}

#[test]
fn parameters_are_squared_once_more_than_the_depth() {
    let param = small_param();
    let n = to_big(&param.n);
    let expected = BigUint::from(5u32).modpow(&(BigUint::from(1u32) << 17), &n);
    assert_eq!(to_big(&param.y_two), expected);
    let zero_depth =
        generate_time_lock_puzzle_param_with(&BigNat::from_u64(5), &BigNat::from_u64(1000), 0);
    assert!(zero_depth.y_two.equals(&BigNat::from_u64(25)));
}

#[test]
fn solving_raises_to_two_to_the_depth() {
    let k = solve_time_lock_puzzle(&BigNat::from_u64(3), 5, &BigNat::from_u64(1000000007));
    let expected = BigUint::from(3u32).modpow(&(BigUint::from(1u32) << 5), &BigUint::from(1000000007u32));
    assert_eq!(to_big(&k), expected);
    assert!(solve_time_lock_puzzle(&BigNat::from_u64(7), 0, &BigNat::from_u64(5)).equals(&BigNat::from_u64(2)));
}

#[test]
fn the_solver_reaches_the_secret() {
    let param = small_param();
    let s = BigNat::from_u64(0xdead_beef_1234);
    let r = BigNat::from_u64(0x1357_9bdf);
    let puzzle = time_lock_puzzle_from(&param, 16, &r, &s);
    let solved = solve_time_lock_puzzle(&puzzle.0.o, 16, &param.n);
    assert!(solved.equals(&puzzle.3.k));
    let k = to_big(&puzzle.3.k);
    assert_eq!(to_big(&puzzle.2.k_two), (&k * &k) % to_big(&param.n));
    assert!(puzzle.1.n.equals(&param.n));
    assert_eq!(puzzle.2.k_hash_value.get(0), hash(&puzzle.3.k).get(0));
}

#[test]
fn the_response_is_not_reduced() {
    let param = small_param().to_sigma_param();
    let r = BigNat::from_u64(12345);
    let s = BigNat::from_u64(67890);
    let statement = generate_sigma_protocol_public_input(&param, &r, &s);
    let n = to_big(&param.n);
    let g = to_big(&param.g);
    let y_two = to_big(&param.y_two);
    assert_eq!(to_big(&statement.r1), g.modpow(&BigUint::from(12345u32), &n));
    assert_eq!(to_big(&statement.r2), y_two.modpow(&BigUint::from(12345u32), &n));
    assert_eq!(to_big(&statement.o), g.modpow(&BigUint::from(67890u32), &n));
    assert_eq!(to_big(&statement.k_two), y_two.modpow(&BigUint::from(67890u32), &n));
    let c = to_big(&get_c(&statement.r1, &statement.r2));
    assert!(c > n);
    assert_eq!(to_big(&statement.z), BigUint::from(12345u32) + BigUint::from(67890u32) * c);
    assert!(verify(&statement, &param));
}

#[test]
fn every_field_of_the_statement_matters() {
    let param = small_param().to_sigma_param();
    let statement = generate_sigma_protocol_public_input(&param, &random(128), &random(128));
    assert!(verify(&statement, &param));
    let bump = |x: &BigNat| from_big(&(to_big(x) + 1u32));
    let mut changed = statement.clone();
    changed.r1 = bump(&statement.r1);
    assert!(!verify(&changed, &param));
    let mut changed = statement.clone();
    changed.r2 = bump(&statement.r2);
    assert!(!verify(&changed, &param));
    let mut changed = statement.clone();
    changed.z = bump(&statement.z);
    assert!(!verify(&changed, &param));
    let mut changed = statement.clone();
    changed.o = bump(&statement.o);
    assert!(!verify(&changed, &param));
    let mut changed = statement.clone();
    changed.k_two = bump(&statement.k_two);
    assert!(!verify(&changed, &param));
}

#[test]
fn commitments_that_do_not_fit_the_hash_are_refused() {
    let param = small_param().to_sigma_param();
    let mut statement = generate_sigma_protocol_public_input(&param, &random(64), &random(64));
    statement.r1 = from_big(&(BigUint::from(1u32) << 2048));
    assert!(!verify(&statement, &param));
}

#[test]
fn the_challenge_depends_on_both_commitments() {
    let a = get_c(&BigNat::from_u64(1), &BigNat::from_u64(2));
    let b = get_c(&BigNat::from_u64(1), &BigNat::from_u64(3));
    let c = get_c(&BigNat::from_u64(2), &BigNat::from_u64(2));
    let again = get_c(&BigNat::from_u64(1), &BigNat::from_u64(2));
    assert!(a.equals(&again));
    assert!(!a.equals(&b) && !a.equals(&c));
}

#[test]
fn fresh_public_input_is_accepted() {
    let param = small_param();
    let k = BigNat::from_u64(424242);
    let input = generate_time_lock_puzzle_public_input(&k, &param.g, &param.n, &param.y_two);
    assert!(verify(&input.to_sigma_input(), &param.to_sigma_param()));
    assert_eq!(input.k_hash_value.get(0), hash(&k).get(0));
    assert_eq!(input.k_hash_value.get(1), hash(&k).get(1));
    let fixed = time_lock_puzzle_public_input_from(
        &k,
        &param.g,
        &param.n,
        &param.y_two,
        &BigNat::from_u64(3),
        &BigNat::from_u64(4),
    );
    assert!(fixed.o.equals(&BigNat::from_u64(625)));
    let puzzle = generate_time_lock_puzzle(&param, 16);
    assert!(verify(&puzzle.0, &param.to_sigma_param()));
    assert!(solve_time_lock_puzzle(&puzzle.0.o, 16, &param.n).equals(&puzzle.3.k));
}

#[test]
fn hash_is_a_function_of_the_value() {
    let a = hash(&BigNat::from_u64(1));
    let b = hash(&BigNat::from_u64(2));
    let again = hash(&BigNat { bytes: vec![1, 0, 0] });
    assert_eq!(a.get(0), again.get(0));
    assert_eq!(a.get(1), again.get(1));
    assert_ne!(a.get(0), b.get(0));
    assert!(a.to_key().is_some());
    let top = from_big(&((BigUint::from(1u32) << 2048) - 1u32));
    assert!(hash(&top).to_key().is_some());
}

#[test]
fn limbs_are_packed_three_to_an_element() {
    let mut limbs = vec![Fe::zero(); 32];
    limbs[0] = Fe::from_u64(7);
    limbs[1] = Fe::from_u64(1);
    limbs[2] = Fe::from_u64(2);
    limbs[30] = Fe::from_u64(5);
    limbs[31] = Fe::from_u64(3);
    let packed = pack_limbs(&limbs);
    assert_eq!(packed.len(), 11);
    let first = BigUint::from(7u32) + (BigUint::from(1u32) << 64) + (BigUint::from(2u32) << 128);
    assert_eq!(BigUint::from_bytes_le(&packed[0].to_bytes()), first);
    assert!(packed[1].equals(&Fe::zero()));
    let last = BigUint::from(5u32) + (BigUint::from(3u32) << 64);
    assert_eq!(BigUint::from_bytes_le(&packed[10].to_bytes()), last);
    let state = hash_limbs(&limbs);
    let value = from_big(
        &(BigUint::from(7u32)
            + (BigUint::from(1u32) << 64)
            + (BigUint::from(2u32) << 128)
            + (BigUint::from(5u32) << (64 * 30))
            + (BigUint::from(3u32) << (64 * 31))),
    );
    assert_eq!(hash(&value).get(0), &state[1].to_bytes());
    assert_eq!(hash(&value).get(1), &state[2].to_bytes());
}

#[test]
fn hash_values_hold_two_elements() {
    let digest = HashValue::new([Fe::one().to_bytes(), Fe::from_u64(2).to_bytes()]);
    assert_eq!(digest.get(0)[0], 1);
    assert_eq!(digest.get(1)[0], 2);
    assert!(digest.to_key().unwrap()[1].equals(&Fe::from_u64(2)));
    assert!(HashValue::new([[0xff; 32]; 2]).to_key().is_none());
    assert_eq!(HashValue::default().get(0), &[0u8; 32]);
    assert_eq!(HashValue::from_elements(&Fe::from_u64(9), &Fe::one()).get(0)[0], 9);
}

#[test]
fn the_decryption_key_is_the_digest_of_the_solution() {
    let param = small_param();
    let o = BigNat::from_u64(987654321);
    let key = get_decryption_key(&o, 16, &param.n).unwrap();
    let k = solve_time_lock_puzzle(&o, 16, &param.n);
    assert_eq!(key.get(0), hash(&k).get(0));
    assert_eq!(key.get(1), hash(&k).get(1));
    let wide = from_big(&((BigUint::from(1u32) << 2100) + 1u32));
    let o = from_big(&(BigUint::from(1u32) << 2099));
    assert!(get_decryption_key(&o, 0, &wide).is_err());
}

#[test]
fn verification_checks_the_sigma_protocol_first() {
    let param = small_param();
    let k = BigNat::from_u64(31337);
    let good = generate_time_lock_puzzle_public_input(&k, &param.g, &param.n, &param.y_two);
    let mut called = false;
    assert!(verify_time_lock_puzzle_zkp(&good, &param, |input| {
        called = true;
        input.k_two.equals(&good.k_two)
    }));
    assert!(called);
    assert!(!verify_time_lock_puzzle_zkp(&good, &param, |_| false));

    let mut bad = good.clone();
    bad.z = from_big(&(to_big(&good.z) + 1u32));
    let mut called = false;
    assert!(!verify_time_lock_puzzle_zkp(&bad, &param, |_| {
        called = true;
        true
    }));
    assert!(!called);
    assert!(check_sigma_stage(&bad, &param).is_none());
    assert!(check_sigma_stage(&good, &param).unwrap().k_two.equals(&good.k_two));
}

#[test]
fn the_prover_is_handed_modulus_pair_and_secret() {
    let param = small_param();
    let k = BigNat::from_u64(31337);
    let public = generate_time_lock_puzzle_public_input(&k, &param.g, &param.n, &param.y_two);
    let secret = TimeLockPuzzleSecretInput { k: k.clone() };
    let inputs = key_validation_inputs(&public, &secret, &param);
    assert!(inputs.0.n.equals(&param.n));
    assert!(inputs.1.k_two.equals(&public.k_two));
    assert!(inputs.2.k.equals(&k));
    let proof = prove_time_lock_puzzle_validity(
        &public,
        &secret,
        &param,
        |p: &KeyValidationParam, i: &KeyValidationPublicInput, s: &KeyValidationSecretInput| {
            let mut bytes = p.n.bytes.clone();
            bytes.extend_from_slice(&i.k_two.bytes);
            bytes.extend_from_slice(&s.k.bytes);
            bytes
        },
    );
    let mut expected = param.n.bytes.clone();
    expected.extend_from_slice(&public.k_two.bytes);
    expected.extend_from_slice(&k.bytes);
    assert_eq!(proof, expected);
}

#[test]
fn the_key_validation_instance_binds_square_and_digest() {
    let n = from_big(&((BigUint::from(1u32) << 127) - 1u32));
    let k = BigNat::from_u64(0xfeed_face_cafe_beef);
    let circuit = KeyValidationCircuit { n: n.clone(), k: k.clone() };
    let instance = circuit.instance().unwrap();
    assert_eq!(instance.len(), 34);

    let k_big = to_big(&k);
    let k_two = from_big(&((&k_big * &k_big) % to_big(&n)));
    let honest = KeyValidationPublicInput { k_two: k_two.clone(), k_hash_value: hash(&k) };
    let inputs = key_validation_public_inputs(&honest).unwrap();
    assert_eq!(inputs.len(), 34);
    for i in 0..34 {
        assert!(instance[i].equals(&inputs[i]));
    }

    let wrong_hash = KeyValidationPublicInput {
        k_two: k_two.clone(),
        k_hash_value: hash(&BigNat::from_u64(1)),
    };
    let inputs = key_validation_public_inputs(&wrong_hash).unwrap();
    assert!(instance[31].equals(&inputs[31]));
    assert!(!instance[32].equals(&inputs[32]) || !instance[33].equals(&inputs[33]));

    let wrong_square = KeyValidationPublicInput {
        k_two: from_big(&(to_big(&k_two) + 1u32)),
        k_hash_value: hash(&k),
    };
    let inputs = key_validation_public_inputs(&wrong_square).unwrap();
    assert!(!instance[0].equals(&inputs[0]));

    let too_wide = KeyValidationPublicInput {
        k_two: from_big(&(BigUint::from(1u32) << 2048)),
        k_hash_value: hash(&k),
    };
    assert!(key_validation_public_inputs(&too_wide).is_none());

    assert!(KeyValidationCircuit::create_empty_circuit().instance().is_none());
    assert!(circuit.without_witnesses().k.equals(&k));
}

#[test]
fn end_to_end() {
    let t = 2048;
    let param = generate_time_lock_puzzle_param(t);
    let s = random(128);
    let r = random(128);
    let puzzle = time_lock_puzzle_from(&param, t, &r, &s);
    let k = puzzle.3.k.clone();

    // the solver reaches the secret from the public power
    let y = sequential_squares(&param.g, t, &param.n);
    assert_eq!(to_big(&k), to_big(&y).modpow(&to_big(&s), &to_big(&param.n)));
    assert_eq!(to_big(&puzzle.0.o), to_big(&param.g).modpow(&to_big(&s), &to_big(&param.n)));
    assert!(solve_time_lock_puzzle(&puzzle.0.o, t, &param.n).equals(&k));

    // the digest of the secret keys the cipher
    let digest = hash(&k);
    let key = PoseidonHashValue::new([*digest.get(0), *digest.get(1)]);
    let encrypted = encrypt("stompesi", &key);
    assert_eq!(decrypt(&encrypted, &key).unwrap(), "stompesi");
    let solved = get_decryption_key(&puzzle.0.o, t, &param.n).unwrap();
    assert_eq!(solved.get(0), digest.get(0));

    // the sigma protocol accepts, and the instance of the key's proof is the
    // one that the circuit computes from the secret
    assert!(verify(&puzzle.0, &param.to_sigma_param()));
    let instance = KeyValidationCircuit { n: param.n.clone(), k: k.clone() }.instance().unwrap();
    let inputs = key_validation_public_inputs(&puzzle.2).unwrap();
    assert!(instance.iter().zip(inputs.iter()).all(|(a, b)| a.equals(b)));

    // a changed secret gives another instance
    let mut bytes = k.bytes.clone();
    bytes[0] ^= 1;
    let changed = KeyValidationCircuit { n: param.n.clone(), k: BigNat { bytes } }.instance().unwrap();
    assert!(!changed.iter().zip(inputs.iter()).all(|(a, b)| a.equals(b)));
}

#[test]
fn a_fresh_secret_is_below_the_modulus() {
    let n = BigNat::from_u64(1000003);
    for _ in 0..8 {
        let k = pvde::time_lock_puzzle::generate_k(&n);
        assert!(to_big(&k) < BigUint::from(1000003u32));
    }
    let wide = standard_modulus_big();
    assert!(pvde::time_lock_puzzle::generate_k(&wide).bits() > 1900);
}

#[test]
fn the_square_of_a_secret() {
    let k_two = pvde::time_lock_puzzle::calculate_k_two(&BigNat::from_u64(123456), &BigNat::from_u64(1000003));
    assert!(k_two.equals(&BigNat::from_u64(123456 * 123456 % 1000003)));
}

#[test]
fn a_digest_is_checked_against_the_secret() {
    let k = BigNat::from_u64(55555);
    let digest = hash(&k);
    assert!(pvde::time_lock_puzzle::check_hash(&k, &digest));
    assert!(!pvde::time_lock_puzzle::check_hash(&BigNat::from_u64(55556), &digest));
    let swapped = HashValue::new([*digest.get(1), *digest.get(0)]);
    assert!(!pvde::time_lock_puzzle::check_hash(&k, &swapped));
}

#[test]
fn chips_of_the_key_validation_circuit() {
    let rsa = KeyValidationChip::new_rsa(2048, EXP_LIMB_BITS);
    assert_eq!(rsa.bits_len, 2048);
    assert_eq!(rsa.exp_limb_bits, 15);
    assert_eq!(rsa.bigint_chip().num_limbs, 32);
    assert_eq!(rsa.bigint_chip().limb_width, 64);
    let mut hasher = KeyValidationChip::new_hash();
    hasher.update(&[Fe::one()]);
    let state = hasher.hash();
    let mut reference = pvde::encryptor::encryptor::Encryptor::new_hash(8, 57);
    reference.update(&[Fe::one()]);
    assert!(reference.squeeze(1)[1].equals(&state[1]));
}

#[test]
fn a_draw_is_reduced_by_the_modulus() {
    let n = BigNat::from_u64(1000003);
    let wide = from_big(&((BigUint::from(1u32) << 100) + 12345u32));
    let k = pvde::time_lock_puzzle::secret_from_draw(&wide, &n);
    assert_eq!(to_big(&k), to_big(&wide) % BigUint::from(1000003u32));
    let small = BigNat::from_u64(77);
    assert!(pvde::time_lock_puzzle::secret_from_draw(&small, &n).equals(&small));
    assert!(pvde::time_lock_puzzle::secret_from_draw(&n, &n).equals(&BigNat::zero()));
}
