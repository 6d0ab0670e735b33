use num_bigint::BigUint;
use pvde::bigint::BigNat;
use pvde::modular::{big_pow_mod, mul_mod, sequential_squares};

fn n(x: u64) -> BigNat {
    BigNat::from_u64(x)
}

fn big(x: &BigNat) -> BigUint {
    BigUint::from_bytes_le(&x.bytes)
}

#[test]
fn pow_mod_small_values() {
    assert!(big_pow_mod(&n(2), &n(10), &n(1000)).equals(&n(24)));
    assert!(big_pow_mod(&n(3), &n(5), &n(7)).equals(&n(5)));
    assert!(big_pow_mod(&n(7), &n(1), &n(5)).equals(&n(2)));
}

#[test]
fn pow_mod_zero_exponent_is_one() {
    assert!(big_pow_mod(&n(0), &n(0), &n(7)).equals(&n(1)));
    assert!(big_pow_mod(&n(12), &n(0), &n(5)).equals(&n(1)));
    assert!(big_pow_mod(&n(12), &n(0), &n(1)).equals(&n(1)));
}

#[test]
fn pow_mod_modulus_one_is_zero() {
    assert!(big_pow_mod(&n(5), &n(3), &n(1)).equals(&n(0)));
    assert!(big_pow_mod(&n(0), &n(9), &n(1)).equals(&n(0)));
}

#[test]
fn pow_mod_zero_base() {
    assert!(big_pow_mod(&n(0), &n(4), &n(9)).equals(&n(0)));
}

#[test]
fn pow_mod_is_repeated_multiplication() {
    let pairs: [(u64, u64); 5] = [(0, 7), (1, 5), (2, 1000003), (123456789, 97), (5, 1)];
    for (a, m) in pairs {
        let mut naive = BigUint::from(1u32);
        for b in 0u64..=64 {
            let got = big_pow_mod(&n(a), &n(b), &n(m));
            if b == 0 {
                assert_eq!(big(&got), BigUint::from(1u32));
            } else {
                assert_eq!(big(&got), &naive % BigUint::from(m));
            }
            naive = naive * BigUint::from(a);
        }
    }
}

#[test]
fn pow_mod_agrees_with_modpow_on_large_values() {
    let a = BigUint::parse_bytes(b"123456789012345678901234567890123456789", 10).unwrap();
    let b = BigUint::parse_bytes(b"98765432109876543210", 10).unwrap();
    let m = BigUint::parse_bytes(b"1000000000000000000000000000057", 10).unwrap();
    let got = big_pow_mod(
        &BigNat { bytes: a.to_bytes_le() },
        &BigNat { bytes: b.to_bytes_le() },
        &BigNat { bytes: m.to_bytes_le() },
    );
    assert_eq!(big(&got), a.modpow(&b, &m));
}

#[test]
fn mul_mod_reduces_the_product() {
    assert!(mul_mod(&n(123456), &n(654321), &n(1000)).equals(&n(376)));
}

#[test]
fn sequential_squares_square_in_sequence() {
    // 3 -> 9 -> 81 -> 6561 mod 1000 = 561 -> 561^2 mod 1000 = 721
    assert!(sequential_squares(&n(3), 0, &n(1000)).equals(&n(3)));
    assert!(sequential_squares(&n(3), 1, &n(1000)).equals(&n(9)));
    assert!(sequential_squares(&n(3), 3, &n(1000)).equals(&n(561)));
    assert!(sequential_squares(&n(3), 4, &n(1000)).equals(&n(721)));
}

#[test]
fn sequential_squares_match_square_and_multiply() {
    let g = n(5);
    let m = n(1000003);
    let by_squaring = sequential_squares(&g, 10, &m);
    let by_power = big_pow_mod(&g, &n(1024), &m);
    assert!(by_squaring.equals(&by_power));
}
