use num_bigint::BigUint;
use pvde::big_integer::chip::BigIntChip;
use pvde::big_integer::integer::{AssignedInteger, AssignedLimb, UnassignedInteger};
use pvde::big_integer::{
    decompose_big, fits_in_limbs, schoolbook_product, Fresh, Muled, RefreshAux,
};
use pvde::bigint::BigNat;
use pvde::field::Fe;
use rand::{thread_rng, Rng};

fn to_nat(x: &BigUint) -> BigNat {
    BigNat { bytes: x.to_bytes_le() }
}

fn big(x: &BigNat) -> BigUint {
    BigUint::from_bytes_le(&x.bytes)
}

fn fe_value(x: &Fe) -> BigUint {
    BigUint::from_bytes_le(&x.to_bytes())
}

#[test]
fn test_debug_and_clone_traits() {
    let fresh = Fresh {};
    let fresh = fresh.clone();
    assert_eq!(format!("{fresh:?}"), "Fresh");
    let muled = Muled {};
    let muled = muled.clone();
    assert_eq!(format!("{muled:?}"), "Muled");

    let unassigned_int = UnassignedInteger::from(vec![Fe::one()]);
    let unassigned_int = unassigned_int.clone();
    assert_eq!(unassigned_int.num_limbs(), 1);
    assert!(unassigned_int.limb(0).unwrap().equals(&Fe::one()));

    let limb_width = 32;
    let num_limbs_l = 1usize;
    let num_limbs_r = 1usize;
    let aux = RefreshAux::new(limb_width, num_limbs_l, num_limbs_r);
    let aux = aux.clone();
    assert_eq!(format!("{aux:?}"),"RefreshAux { limb_width: 32, num_limbs_l: 1, num_limbs_r: 1, increased_limbs_vec: [1, 0] }");
}

#[test]
fn test_refresh_aux_random() {
    let mut rng = thread_rng();
    let limb_width = 32;
    let num_limbs_l = rng.gen::<u8>() as usize + 1usize;
    let num_limbs_r = rng.gen::<u8>() as usize + 1usize;
    let refresh_aux_0 = RefreshAux::new(limb_width, num_limbs_l, num_limbs_r);
    let refresh_aux_1 = RefreshAux::new(limb_width, num_limbs_r, num_limbs_l);
    assert_eq!(
        refresh_aux_0.increased_limbs_vec.len(),
        refresh_aux_1.increased_limbs_vec.len()
    );
    let vec0 = refresh_aux_0.increased_limbs_vec;
    let vec1 = refresh_aux_1.increased_limbs_vec;
    for i in 0..vec0.len() {
        assert_eq!(vec0[i], vec1[i]);
    }
}

#[test]
fn refresh_aux_known_values() {
    assert_eq!(RefreshAux::new(32, 2, 3).increased_limbs_vec, vec![1, 2, 2, 1, 0]);
    assert_eq!(RefreshAux::new(8, 3, 3).increased_limbs_vec, vec![1, 2, 2, 2, 1, 0]);
    assert_eq!(RefreshAux::new(1, 2, 2).increased_limbs_vec, vec![0, 1, 1, 0]);
    let standard = RefreshAux::new(64, 32, 32);
    let mut expected = vec![2usize; 64];
    expected[0] = 1;
    expected[62] = 1;
    expected[63] = 0;
    assert_eq!(standard.increased_limbs_vec, expected);
    assert_eq!(standard.limb_width, 64);
    assert_eq!(standard.num_limbs_l, 32);
    assert_eq!(standard.num_limbs_r, 32);
}

#[test]
fn refresh_aux_is_symmetric() {
    for l in 1usize..6 {
        for r in 1usize..6 {
            assert_eq!(
                RefreshAux::new(16, l, r).increased_limbs_vec,
                RefreshAux::new(16, r, l).increased_limbs_vec
            );
        }
    }
}

#[test]
fn schoolbook_product_is_the_convolution() {
    let a = vec![BigNat::from_u64(1), BigNat::from_u64(2)];
    let b = vec![BigNat::from_u64(3), BigNat::from_u64(4), BigNat::from_u64(5)];
    let product = schoolbook_product(&a, &b);
    let values: Vec<BigUint> = product.iter().map(big).collect();
    let expected: Vec<BigUint> = [3u32, 10, 13, 10].iter().map(|x| BigUint::from(*x)).collect();
    assert_eq!(values, expected);
}

#[test]
fn decompose_cuts_into_limbs() {
    let value = (BigUint::from(1u32) << 64) + 5u32;
    let limbs = decompose_big(&to_nat(&value), 4, 64);
    let values: Vec<BigUint> = limbs.iter().map(fe_value).collect();
    assert_eq!(
        values,
        vec![BigUint::from(5u32), BigUint::from(1u32), BigUint::from(0u32), BigUint::from(0u32)]
    );
    let limbs = decompose_big(&BigNat::from_u64(0xabcd), 4, 4);
    let values: Vec<BigUint> = limbs.iter().map(fe_value).collect();
    let expected: Vec<BigUint> = [0xdu32, 0xc, 0xb, 0xa].iter().map(|x| BigUint::from(*x)).collect();
    assert_eq!(values, expected);
}

#[test]
fn fits_in_limbs_is_exact_at_the_edge() {
    let edge = BigUint::from(1u32) << 128;
    assert!(fits_in_limbs(&to_nat(&(&edge - 1u32)), 2, 64));
    assert!(!fits_in_limbs(&to_nat(&edge), 2, 64));
    assert!(fits_in_limbs(&BigNat::zero(), 0, 64));
    assert!(!fits_in_limbs(&BigNat::from_u64(1), 0, 64));
}

#[test]
fn integer_limbs_and_value() {
    let limbs: Vec<AssignedLimb<Fresh>> =
        vec![AssignedLimb::from(Fe::from_u64(7)), AssignedLimb::from(Fe::from_u64(2))];
    let mut integer = AssignedInteger::new(&limbs);
    assert_eq!(integer.num_limbs(), 2);
    assert!(integer.limb(1).equals(&Fe::from_u64(2)));
    assert_eq!(big(&integer.to_big_uint(8)), BigUint::from(7u32 + 2 * 256));
    integer.replace_limb(0, AssignedLimb::from(Fe::from_u64(9)));
    assert_eq!(big(&integer.to_big_uint(8)), BigUint::from(9u32 + 2 * 256));
    integer.extend_limbs(3, Fe::zero());
    assert_eq!(integer.num_limbs(), 5);
    assert_eq!(big(&integer.to_big_uint(8)), BigUint::from(9u32 + 2 * 256));
    assert_eq!(integer.limbs().len(), 5);
    assert!(integer.clone().limb(0).equals(&Fe::from_u64(9)));
}

#[test]
fn to_muled_pads_to_the_length_of_a_square() {
    let integer: AssignedInteger<Fresh> =
        AssignedInteger::from_values(&[Fe::from_u64(1), Fe::from_u64(2), Fe::from_u64(3)]);
    let zero: AssignedLimb<Muled> = AssignedLimb::from(Fe::zero());
    let muled = integer.to_muled(zero);
    assert_eq!(muled.num_limbs(), 5);
    assert!(muled.limb(2).equals(&Fe::from_u64(3)));
    assert!(muled.limb(4).equals(&Fe::zero()));
    let limb: AssignedLimb<Fresh> = AssignedLimb::from(Fe::from_u64(4));
    assert!(limb.clone().to_muled().assigned_val().equals(&Fe::from_u64(4)));
}

#[test]
fn unassigned_integer_with_and_without_witness() {
    let known = UnassignedInteger::from(vec![Fe::from_u64(3), Fe::from_u64(4)]);
    assert_eq!(known.num_limbs(), 2);
    assert!(known.limb(1).unwrap().equals(&Fe::from_u64(4)));
    let unknown = UnassignedInteger::without_witness(5);
    assert_eq!(unknown.num_limbs(), 5);
    assert!(unknown.limb(0).is_none());
}

#[test]
fn assignment_checks_the_range() {
    let chip = BigIntChip::new(8, 16);
    assert_eq!(chip.num_limbs, 2);
    let good = UnassignedInteger::from(vec![Fe::from_u64(255), Fe::from_u64(0)]);
    assert!(chip.assign_integer(&good).is_some());
    let wide = UnassignedInteger::from(vec![Fe::from_u64(256), Fe::from_u64(0)]);
    assert!(chip.assign_integer(&wide).is_none());
    let short = UnassignedInteger::from(vec![Fe::from_u64(1)]);
    assert!(chip.assign_integer(&short).is_none());
    assert!(chip.assign_integer(&UnassignedInteger::without_witness(2)).is_none());
}

#[test]
fn multiply_then_refresh_keeps_the_value() {
    let chip = BigIntChip::new(8, 24);
    let a: AssignedInteger<Fresh> =
        AssignedInteger::from_values(&[Fe::from_u64(255), Fe::from_u64(254), Fe::from_u64(3)]);
    let b: AssignedInteger<Fresh> =
        AssignedInteger::from_values(&[Fe::from_u64(17), Fe::from_u64(255), Fe::from_u64(200)]);
    let product = chip.mul(&a, &b);
    assert_eq!(product.num_limbs(), 5);
    assert_eq!(fe_value(&product.limb(0)), BigUint::from(255u32 * 17));
    let aux = RefreshAux::new(8, 3, 3);
    let fresh = chip.refresh(&product, &aux).unwrap();
    assert_eq!(fresh.num_limbs(), 6);
    for i in 0..6 {
        assert!(fe_value(&fresh.limb(i)) < BigUint::from(256u32));
    }
    assert_eq!(big(&fresh.to_big_uint(8)), big(&a.to_big_uint(8)) * big(&b.to_big_uint(8)));
}

#[test]
fn refresh_fails_when_a_limb_does_not_fit_its_chunks() {
    let chip = BigIntChip::new(8, 8);
    let product: AssignedInteger<Muled> = AssignedInteger::from_values(&[Fe::from_u64(70000)]);
    let aux = RefreshAux::new(8, 1, 1);
    assert!(chip.refresh(&product, &aux).is_none());
}

#[test]
fn square_mod_of_limb_integers() {
    let chip = BigIntChip::new(64, 128);
    let a_value = (BigUint::from(0xfedcba9876543210u64) << 64) + 0x0123456789abcdefu64;
    let n_value = (BigUint::from(0x8000000000000001u64) << 64) + 12345u64;
    let a: AssignedInteger<Fresh> =
        AssignedInteger::from_values(&decompose_big(&to_nat(&a_value), 2, 64));
    let n: AssignedInteger<Fresh> =
        AssignedInteger::from_values(&decompose_big(&to_nat(&n_value), 2, 64));
    let square = chip.square_mod(&a, &n).unwrap();
    assert_eq!(square.num_limbs(), 2);
    assert_eq!(big(&square.to_big_uint(64)), (&a_value * &a_value) % &n_value);
}

#[test]
fn refreshing_fresh_limbs_changes_nothing() {
    let chip = BigIntChip::new(8, 16);
    let aux = RefreshAux::new(8, 2, 2);
    let limbs = [Fe::from_u64(200), Fe::from_u64(3), Fe::from_u64(255)];
    let product: AssignedInteger<Muled> = AssignedInteger::from_values(&limbs);
    let fresh = chip.refresh(&product, &aux).unwrap();
    assert_eq!(fresh.num_limbs(), 4);
    for i in 0..3 {
        assert!(fresh.limb(i).equals(&limbs[i]));
    }
    assert!(fresh.limb(3).equals(&Fe::zero()));
}
