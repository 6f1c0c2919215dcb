use kzg_core::field::{FieldElement, bytes_to_bls_field, bytes_from_bls_field, compute_powers, fr_batch_inv, vector_lincomb};
use kzg_core::fft::{FFTSettings, reverse_bit_order, bit_reverse};
use kzg_core::Error;

const R_BYTES: [u8; 32] = [
    0x01, 0x00, 0x00, 0x00, 0xff, 0xff, 0xff, 0xff, 0xfe, 0x5b, 0xfe, 0xff, 0x02, 0xa4, 0xbd,
    0x53, 0x05, 0xd8, 0xa1, 0x09, 0x08, 0xd8, 0x39, 0x33, 0x48, 0x7d, 0x9d, 0x29, 0x53, 0xa7,
    0xed, 0x73,
];

const R_MINUS_ONE_BYTES: [u8; 32] = [
    0x00, 0x00, 0x00, 0x00, 0xff, 0xff, 0xff, 0xff, 0xfe, 0x5b, 0xfe, 0xff, 0x02, 0xa4, 0xbd,
    0x53, 0x05, 0xd8, 0xa1, 0x09, 0x08, 0xd8, 0x39, 0x33, 0x48, 0x7d, 0x9d, 0x29, 0x53, 0xa7,
    0xed, 0x73,
];

#[test]
fn field_bytes_round_trip() {
    let x = FieldElement::from_u64(123456789012345);
    let bytes = bytes_from_bls_field(&x);
    let y = bytes_to_bls_field(&bytes).unwrap();
    assert!(x.equals(&y));
}

#[test]
fn field_bytes_reject_modulus() {
    assert_eq!(bytes_to_bls_field(&R_BYTES).err().unwrap(), Error::ParseError);
    // one below the modulus is the largest canonical encoding
    assert!(bytes_to_bls_field(&R_MINUS_ONE_BYTES).is_ok());
}

#[test]
fn field_arithmetic_small_values() {
    let a = FieldElement::from_u64(1000);
    let b = FieldElement::from_u64(77);
    assert!(a.add(&b).equals(&FieldElement::from_u64(1077)));
    assert!(a.sub(&b).equals(&FieldElement::from_u64(923)));
    assert!(a.mul(&b).equals(&FieldElement::from_u64(77000)));
    let q = FieldElement::from_u64(42).div(&FieldElement::from_u64(6)).unwrap();
    assert!(q.equals(&FieldElement::from_u64(7)));
}

#[test]
fn field_sub_wraps_to_minus_one() {
    let m1 = FieldElement::zero().sub(&FieldElement::one());
    let expect = bytes_to_bls_field(&R_MINUS_ONE_BYTES).unwrap();
    assert!(m1.equals(&expect));
}

#[test]
fn field_div_by_zero_fails() {
    let e = FieldElement::one().div(&FieldElement::zero()).err().unwrap();
    assert_eq!(e, Error::DivisionByZero);
}

#[test]
fn field_pow_exact() {
    let p = FieldElement::from_u64(7).pow(20);
    assert!(p.equals(&FieldElement::from_u64(79792266297612001)));
    assert!(FieldElement::from_u64(5).pow(0).equals(&FieldElement::one()));
}

#[test]
fn batch_inv_inverts_every_element() {
    let mut a: Vec<FieldElement> = Vec::new();
    for i in 1..9u64 {
        a.push(FieldElement::from_u64(i * 31 + 5));
    }
    let out = fr_batch_inv(&a).unwrap();
    assert_eq!(out.len(), a.len());
    for i in 0..a.len() {
        assert!(out[i].mul(&a[i]).equals(&FieldElement::one()));
    }
}

#[test]
fn batch_inv_zero_fails() {
    let a = vec![FieldElement::from_u64(3), FieldElement::zero()];
    assert_eq!(fr_batch_inv(&a).err().unwrap(), Error::DivisionByZero);
}

#[test]
fn batch_inv_empty_is_ok() {
    let out = fr_batch_inv(&Vec::new()).unwrap();
    assert_eq!(out.len(), 0);
}

#[test]
fn compute_powers_geometric() {
    let powers = compute_powers(&FieldElement::from_u64(2), 5);
    let expect = [1u64, 2, 4, 8, 16];
    assert_eq!(powers.len(), 5);
    for i in 0..5 {
        assert!(powers[i].equals(&FieldElement::from_u64(expect[i])));
    }
}

#[test]
fn vector_lincomb_componentwise() {
    let v1 = vec![FieldElement::from_u64(1), FieldElement::from_u64(2)];
    let v2 = vec![FieldElement::from_u64(10), FieldElement::from_u64(20)];
    let scalars = vec![FieldElement::from_u64(3), FieldElement::from_u64(5)];
    let out = vector_lincomb(&vec![v1, v2], &scalars);
    // 1*3 + 10*5 = 53, 2*3 + 20*5 = 106
    assert!(out[0].equals(&FieldElement::from_u64(53)));
    assert!(out[1].equals(&FieldElement::from_u64(106)));
}

#[test]
fn bit_reverse_small_indices() {
    assert_eq!(bit_reverse(0, 3), 0);
    assert_eq!(bit_reverse(1, 3), 4);
    assert_eq!(bit_reverse(3, 3), 6);
    assert_eq!(bit_reverse(5, 3), 5);
    assert_eq!(bit_reverse(7, 3), 7);
}

#[test]
fn reverse_bit_order_length_eight() {
    let mut v: Vec<u64> = (0..8).collect();
    reverse_bit_order(&mut v);
    assert_eq!(v, vec![0, 4, 2, 6, 1, 5, 3, 7]);
    // 1 <-> 4, 3 <-> 6, 5 <-> 5, 0 and 7 fixed
    assert_eq!(v[4], 1);
    assert_eq!(v[1], 4);
    assert_eq!(v[6], 3);
    assert_eq!(v[3], 6);
    assert_eq!(v[5], 5);
    assert_eq!(v[0], 0);
    assert_eq!(v[7], 7);
}

#[test]
fn fft_round_trip_width_four() {
    let fs = FFTSettings::new(2).unwrap();
    let v: Vec<FieldElement> = [9u64, 32, 77, 1024]
        .iter()
        .map(|&c| FieldElement::from_u64(c))
        .collect();
    let forward = fs.fft_fr(&v, false).unwrap();
    let back = fs.fft_fr(&forward, true).unwrap();
    assert_eq!(back.len(), 4);
    for i in 0..4 {
        assert!(back[i].equals(&v[i]));
    }
}

#[test]
fn fft_round_trip_width_one() {
    let fs = FFTSettings::new(0).unwrap();
    let v = vec![FieldElement::from_u64(5)];
    let forward = fs.fft_fr(&v, false).unwrap();
    let back = fs.fft_fr(&forward, true).unwrap();
    assert!(back[0].equals(&v[0]));
}

#[test]
fn fft_rejects_oversized_input() {
    let fs = FFTSettings::new(1).unwrap();
    let v: Vec<FieldElement> = (0..3).map(FieldElement::from_u64).collect();
    assert_eq!(fs.fft_fr(&v, false).err().unwrap(), Error::DomainOverflow);
}

#[test]
fn fft_settings_reject_large_scale() {
    assert_eq!(FFTSettings::new(32).err().unwrap(), Error::DomainOverflow);
    assert_eq!(FFTSettings::new(2).unwrap().max_width(), 4);
}
