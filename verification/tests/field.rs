use num_bigint::BigUint;
use pvde::bigint::BigNat;
use pvde::field::Fe;

fn order() -> BigUint {
    BigUint::parse_bytes(
        b"21888242871839275222246405745257275088548364400416034343698204186575808495617",
        10,
    )
    .unwrap()
}

fn fe(x: &BigUint) -> Fe {
    Fe::from_big(&BigNat { bytes: x.to_bytes_le() })
}

fn big(x: &Fe) -> BigUint {
    BigUint::from_bytes_le(&x.to_bytes())
}

#[test]
fn the_order_is_the_order_of_bn254() {
    assert_eq!(BigUint::from_bytes_le(&Fe::modulus_big().bytes), order());
}

#[test]
fn small_elements() {
    assert_eq!(big(&Fe::zero()), BigUint::from(0u32));
    assert_eq!(big(&Fe::one()), BigUint::from(1u32));
    assert_eq!(big(&Fe::from_u64(u64::MAX)), BigUint::from(u64::MAX));
    assert!(Fe::one().is_reduced());
}

#[test]
fn addition_wraps_at_the_order() {
    let last = fe(&(order() - 1u32));
    assert_eq!(big(&last.add(&Fe::from_u64(2))), BigUint::from(1u32));
    assert_eq!(big(&Fe::from_u64(2).add(&Fe::from_u64(3))), BigUint::from(5u32));
}

#[test]
fn subtraction_wraps_at_zero() {
    assert_eq!(big(&Fe::zero().sub(&Fe::one())), order() - 1u32);
    assert_eq!(big(&Fe::from_u64(9).sub(&Fe::from_u64(4))), BigUint::from(5u32));
}

#[test]
fn multiplication_reduces() {
    let a = BigUint::from(1u32) << 200;
    let b = BigUint::from(1u32) << 100;
    assert_eq!(big(&fe(&a).mul(&fe(&b))), (&a * &b) % order());
    assert_eq!(big(&Fe::from_u64(6).mul(&Fe::from_u64(7))), BigUint::from(42u32));
}

#[test]
fn inverse_of_three() {
    let expected = BigUint::parse_bytes(
        b"14592161914559516814830937163504850059032242933610689562465469457717205663745",
        10,
    )
    .unwrap();
    let inverse = Fe::from_u64(3).invert_or_zero();
    assert_eq!(big(&inverse), expected);
    assert!(inverse.mul(&Fe::from_u64(3)).equals(&Fe::one()));
    assert!(Fe::zero().invert_or_zero().equals(&Fe::zero()));
}

#[test]
fn bytes_below_the_order_are_elements() {
    let mut bytes = [0u8; 32];
    bytes[0] = 5;
    assert!(Fe::from_bytes(&bytes).unwrap().equals(&Fe::from_u64(5)));
    assert_eq!(Fe::from_u64(5).to_bytes(), bytes);
}

#[test]
fn bytes_from_the_order_up_are_refused() {
    let mut bytes = [0u8; 32];
    bytes.copy_from_slice(&order().to_bytes_le());
    assert!(Fe::from_bytes(&bytes).is_none());
    assert!(Fe::from_bytes(&[0xff; 32]).is_none());
    let mut below = [0u8; 32];
    below.copy_from_slice(&(order() - 1u32).to_bytes_le());
    assert!(Fe::from_bytes(&below).is_some());
}

#[test]
fn big_integers_are_reduced_into_the_field() {
    let x = order() * 3u32 + 11u32;
    assert_eq!(big(&fe(&x)), BigUint::from(11u32));
    assert_eq!(BigUint::from_bytes_le(&Fe::from_u64(11).to_big().bytes), BigUint::from(11u32));
}

#[test]
fn equality_is_by_value() {
    assert!(Fe::from_u64(8).equals(&Fe::from_u64(8)));
    assert!(!Fe::from_u64(8).equals(&Fe::from_u64(9)));
}
