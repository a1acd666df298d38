use snark_testcs::field::Fr;

fn modulus_minus(k: u64) -> Fr {
    // the field order is 725501752471715841 + 6461107452199829505 * 2^64 + ...
    Fr::from_limbs((
        725501752471715841u64 - k,
        6461107452199829505u64,
        6968279316240510977u64,
        1345280370688173398u64,
    ))
    .unwrap()
}

#[test]
fn field_addition_wraps_at_the_modulus() {
    let mut x = modulus_minus(1);
    x.add_assign(&Fr::from_u64(2));
    assert_eq!(x, Fr::one());
}

#[test]
fn field_addition_of_small_values() {
    let mut x = Fr::from_u64(40);
    x.add_assign(&Fr::from_u64(2));
    assert_eq!(x, Fr::from_u64(42));
}

#[test]
fn field_subtraction_below_zero_wraps() {
    let mut x = Fr::zero();
    x.sub_assign(&Fr::one());
    assert_eq!(x, modulus_minus(1));
}

#[test]
fn field_multiplication_of_small_values() {
    let mut x = Fr::from_u64(6);
    x.mul_assign(&Fr::from_u64(7));
    assert_eq!(x, Fr::from_u64(42));
}

#[test]
fn field_minus_one_squared_is_one() {
    let mut x = modulus_minus(1);
    let y = modulus_minus(1);
    x.mul_assign(&y);
    assert_eq!(x, Fr::one());
}

#[test]
fn field_product_past_two_to_the_128() {
    let mut x = Fr::from_u128(1u128 << 100);
    x.mul_assign(&Fr::from_u128(1u128 << 100));
    // 2^200 = 2^8 * 2^192: limb 3 holds 256
    assert_eq!(x.limbs(), (0, 0, 0, 256));
}

#[test]
fn field_from_limbs_rejects_the_modulus() {
    let p = (
        725501752471715841u64,
        6461107452199829505u64,
        6968279316240510977u64,
        1345280370688173398u64,
    );
    assert!(Fr::from_limbs(p).is_none());
    assert!(Fr::from_limbs((u64::MAX, u64::MAX, u64::MAX, u64::MAX)).is_none());
    assert!(Fr::from_limbs((p.0 - 1, p.1, p.2, p.3)).is_some());
}

#[test]
fn field_from_u128_splits_into_limbs() {
    let x = Fr::from_u128((7u128 << 64) | 9);
    assert_eq!(x.limbs(), (9, 7, 0, 0));
}

#[test]
fn field_lower_bits_little_endian() {
    let x = Fr::from_u64(5);
    assert_eq!(x.to_lower_bits_le(5), vec![true, false, true, false, false]);
    let y = Fr::from_u128(1u128 << 70);
    let bits = y.to_lower_bits_le(72);
    assert!(bits[70]);
    assert_eq!(bits.iter().filter(|b| **b).count(), 1);
    assert_eq!(Fr::zero().to_lower_bits_le(0), Vec::<bool>::new());
}
