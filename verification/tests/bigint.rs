use num_bigint::BigUint;
use pvde::bigint::{random_big_uint, str_to_big_uint, BigNat};
use pvde::decimal::{check_decimal, format_decimal, parse_decimal, split_commas};

#[test]
fn from_u64_spells_the_word() {
    let x = BigNat::from_u64(0x0102030405060708);
    assert_eq!(BigUint::from_bytes_le(&x.bytes), BigUint::from(0x0102030405060708u64));
    assert!(BigNat::from_u64(0).equals(&BigNat::zero()));
}

#[test]
fn trailing_zero_bytes_do_not_change_the_number() {
    let a = BigNat { bytes: vec![7, 0, 0, 0] };
    let b = BigNat { bytes: vec![7] };
    assert!(a.equals(&b));
    assert!(!a.equals(&BigNat { bytes: vec![0, 7] }));
}

#[test]
fn bytes_in_both_orders() {
    let le = BigNat::from_bytes_le(&[1, 2]);
    let be = BigNat::from_bytes_be(&[2, 1]);
    assert!(le.equals(&BigNat::from_u64(513)));
    assert!(be.equals(&le));
    assert!(BigNat::from_bytes_be(&[]).equals(&BigNat::zero()));
}

#[test]
fn to_bytes_be_has_no_leading_zero() {
    assert_eq!(BigNat::from_u64(1125).to_bytes_be(), vec![4, 101]);
    assert_eq!(BigNat::zero().to_bytes_be(), vec![0]);
    assert_eq!(BigNat { bytes: vec![9, 0, 0] }.to_bytes_be(), vec![9]);
}

#[test]
fn bits_counts_the_bits() {
    assert_eq!(BigNat::zero().bits(), 0);
    assert_eq!(BigNat::from_u64(1).bits(), 1);
    assert_eq!(BigNat::from_u64(255).bits(), 8);
    assert_eq!(BigNat::from_u64(256).bits(), 9);
}

#[test]
fn clone_keeps_the_number() {
    let a = BigNat::from_u64(77);
    assert!(a.clone().equals(&a));
}

#[test]
fn decimal_numbers_are_parsed() {
    assert!(parse_decimal(b"1234").unwrap().equals(&BigNat::from_u64(1234)));
    assert!(parse_decimal(b"007").unwrap().equals(&BigNat::from_u64(7)));
    assert!(parse_decimal(b"0").unwrap().equals(&BigNat::zero()));
    let big = parse_decimal(b"340282366920938463463374607431768211456").unwrap();
    assert_eq!(BigUint::from_bytes_le(&big.bytes), BigUint::from(1u32) << 128);
}

#[test]
fn what_is_not_decimal_is_refused() {
    assert!(parse_decimal(b"").is_none());
    assert!(parse_decimal(b"12a").is_none());
    assert!(parse_decimal(b"+12").is_none());
    assert!(parse_decimal(b"1_000").is_none());
    assert!(parse_decimal(b" 1").is_none());
    assert!(!check_decimal(b"-1"));
    assert!(check_decimal(b"90"));
}

#[test]
fn decimal_numbers_are_written() {
    assert_eq!(format_decimal(&BigNat::from_u64(1234)), b"1234".to_vec());
    assert_eq!(format_decimal(&BigNat::zero()), b"0".to_vec());
    assert_eq!(format_decimal(&BigNat { bytes: vec![0, 1, 0] }), b"256".to_vec());
}

#[test]
fn commas_split_bytes() {
    assert_eq!(split_commas(b"1,22,333"), vec![b"1".to_vec(), b"22".to_vec(), b"333".to_vec()]);
    assert_eq!(split_commas(b""), vec![Vec::<u8>::new()]);
    assert_eq!(split_commas(b"a,"), vec![b"a".to_vec(), Vec::<u8>::new()]);
    assert_eq!(split_commas(b","), vec![Vec::<u8>::new(), Vec::<u8>::new()]);
    assert_eq!(split_commas(b"abc"), vec![b"abc".to_vec()]);
}

#[test]
fn text_to_number() {
    assert!(str_to_big_uint("5").unwrap().equals(&BigNat::from_u64(5)));
    assert!(str_to_big_uint("18446744073709551616").unwrap().bits() == 65);
    assert!(str_to_big_uint("").is_none());
    assert!(str_to_big_uint("0x10").is_none());
}

#[test]
fn random_numbers_have_at_most_the_bits_asked_for() {
    let mut seen_wide = false;
    for _ in 0..32 {
        let x = random_big_uint(128);
        assert!(x.bits() <= 128);
        if x.bits() > 100 {
            seen_wide = true;
        }
    }
    assert!(seen_wide);
    assert!(random_big_uint(0).equals(&BigNat::zero()));
    assert!(!random_big_uint(256).equals(&random_big_uint(256)));
}
