use pvde::big_integer::integer::{AssignedInteger, UnassignedInteger};
use pvde::big_integer::Fresh;
use pvde::bigint::BigNat;
use pvde::encryption::poseidon_encryption_circuit::PoseidonEncryptionChip;
use pvde::encryptor::encryption::cipher::Cipher;
use pvde::field::Fe;
use pvde::rsa::{
    AssignedRSAPubE, AssignedRSAPublicKey, AssignedRSASignature, RSAChip, RSAPubE, RSAPublicKey,
    RSASignature, RSASignatureVerifier, DIGEST_SIZE,
};

#[test]
fn keys_and_signatures_hold_what_they_are_given() {
    let n = UnassignedInteger::from(vec![Fe::from_u64(7), Fe::from_u64(8)]);
    let key = RSAPublicKey::new(n, RSAPubE::Fix(BigNat::from_u64(65537)));
    assert_eq!(key.n.num_limbs(), 2);
    assert!(matches!(key.e, RSAPubE::Fix(ref e) if e.equals(&BigNat::from_u64(65537))));

    let blank = RSAPublicKey::without_witness(32, BigNat::from_u64(3));
    assert_eq!(blank.n.num_limbs(), 32);
    assert!(blank.n.limb(0).is_none());
    assert!(matches!(blank.e, RSAPubE::Fix(ref e) if e.equals(&BigNat::from_u64(3))));

    let variable = RSAPubE::Var(UnassignedInteger::from(vec![Fe::one()]));
    assert!(matches!(variable, RSAPubE::Var(ref e) if e.num_limbs() == 1));

    let signature = RSASignature::new(UnassignedInteger::from(vec![Fe::from_u64(9)]));
    assert!(signature.c.limb(0).unwrap().equals(&Fe::from_u64(9)));
    assert!(RSASignature::without_witness(4).c.limb(3).is_none());

    let assigned: AssignedInteger<Fresh> = AssignedInteger::from_values(&[Fe::from_u64(5)]);
    let exponent: AssignedInteger<Fresh> = AssignedInteger::from_values(&[Fe::from_u64(3)]);
    let key = AssignedRSAPublicKey::new(assigned.clone(), AssignedRSAPubE::Var(exponent));
    assert!(key.n.limb(0).equals(&Fe::from_u64(5)));
    assert!(matches!(key.e, AssignedRSAPubE::Var(ref e) if e.limb(0).equals(&Fe::from_u64(3))));
    let fixed = AssignedRSAPublicKey::new(assigned.clone(), AssignedRSAPubE::Fix(BigNat::from_u64(3)));
    assert!(matches!(fixed.e, AssignedRSAPubE::Fix(_)));
    assert!(AssignedRSASignature::new(assigned).c.limb(0).equals(&Fe::from_u64(5)));
}

#[test]
fn a_message_enters_as_one_limb_highest_byte_first() {
    let verifier = RSASignatureVerifier::new(RSAChip { bits_len: 2048, exp_limb_bits: 15 });
    assert_eq!(verifier.rsa_chip.bits_len, 2048);
    assert_eq!(RSAChip::LIMB_WIDTH, 64);
    let msg: [u8; DIGEST_SIZE] = [1, 2, 3, 4, 5, 6, 7, 8];
    let integer = verifier.message_integer(&msg);
    assert_eq!(integer.num_limbs(), 1);
    assert!(integer.limb(0).equals(&Fe::from_u64(0x0102030405060708)));
}

#[test]
fn chips_of_the_encryption_circuit() {
    let key = [Fe::from_u64(2), Fe::from_u64(3)];
    let mut enc = PoseidonEncryptionChip::new_enc(key);
    enc.chip.squeeze(0);
    let data: Vec<Fe> = (0..11).map(Fe::from_u64).collect();
    enc.chip.update(&data);
    let released = enc.absorb_and_relese();
    let expected = Cipher::new().encrypt(&data, &key).unwrap();
    assert!(released.iter().zip(expected.iter()).all(|(a, b)| a.equals(b)));
    let mut hasher = PoseidonEncryptionChip::new_hash();
    hasher.update(&data);
    assert!(!hasher.hash()[1].equals(&Fe::zero()));
}
