use kzg_core::field::FieldElement;
use kzg_core::curve::{G1Point, g1_lincomb, g1_linear_combination};
use kzg_core::fft::reverse_bit_order;
use kzg_core::poly::Polynomial;
use kzg_core::setup::load_trusted_setup;
use kzg_core::engine::{blob_to_kzg_commitment, verify_kzg_proof, evaluate_polynomial_in_evaluation_form};
use kzg_core::Error;

fn hex_line(bytes: &[u8]) -> String {
    let mut s = String::new();
    for b in bytes {
        s.push_str(&format!("{:02x}", b));
    }
    s
}

/// A deterministic four-point trusted setup over the secret `secret`:
/// two count lines, four compressed G1 powers, the G2 generator and the
/// G2 generator times the secret.
fn setup_file(secret: u64) -> Vec<u8> {
    let s = bls12_381::Scalar::from(secret);
    let mut text = String::new();
    text.push_str("4\n2\n");
    let mut acc = bls12_381::Scalar::one();
    for _ in 0..4 {
        let p = bls12_381::G1Projective::generator() * acc;
        text.push_str(&hex_line(&bls12_381::G1Affine::from(p).to_compressed()));
        text.push('\n');
        acc *= s;
    }
    let g2 = bls12_381::G2Projective::generator();
    text.push_str(&hex_line(&bls12_381::G2Affine::from(g2).to_compressed()));
    text.push('\n');
    text.push_str(&hex_line(&bls12_381::G2Affine::from(g2 * s).to_compressed()));
    text.push('\n');
    text.into_bytes()
}

const G1_IDENTITY: [u8; 48] = [
    0xc0, 0, 0, 0, 0, 0, 0, 0, 0, 0, 0, 0, 0, 0, 0, 0, 0, 0, 0, 0, 0, 0, 0, 0, 0, 0, 0, 0, 0,
    0, 0, 0, 0, 0, 0, 0, 0, 0, 0, 0, 0, 0, 0, 0, 0, 0, 0, 0,
];

#[test]
fn g1_lincomb_length_mismatch() {
    let points = vec![G1Point::identity()];
    let scalars = vec![FieldElement::one(), FieldElement::one()];
    assert_eq!(g1_lincomb(&points, &scalars).err().unwrap(), Error::LengthMismatch);
}

#[test]
fn g1_lincomb_empty_is_identity() {
    let out = g1_lincomb(&Vec::new(), &Vec::new()).unwrap();
    assert_eq!(out.to_bytes(), G1_IDENTITY);
}

#[test]
fn g1_lincomb_matches_direct_sum() {
    let g = bls12_381::G1Projective::generator();
    let p1 = G1Point::from_bytes(&bls12_381::G1Affine::from(g).to_compressed()).unwrap();
    let p2 = G1Point::from_bytes(
        &bls12_381::G1Affine::from(g * bls12_381::Scalar::from(9u64)).to_compressed(),
    )
    .unwrap();
    let scalars = vec![FieldElement::from_u64(3), FieldElement::from_u64(2)];
    let out = g1_lincomb(&vec![p1, p2], &scalars).unwrap();
    // 3*G + 2*9*G = 21*G
    let expect = bls12_381::G1Affine::from(g * bls12_381::Scalar::from(21u64)).to_compressed();
    assert_eq!(out.to_bytes(), expect);

    let mut acc = G1Point::identity();
    g1_linear_combination(&mut acc, &vec![p1, p2], &scalars, 2);
    assert_eq!(acc.to_bytes(), expect);
}

#[test]
fn g1_lincomb_is_order_independent() {
    let g = bls12_381::G1Projective::generator();
    let p1 = G1Point::from_bytes(&bls12_381::G1Affine::from(g).to_compressed()).unwrap();
    let p2 = G1Point::from_bytes(
        &bls12_381::G1Affine::from(g * bls12_381::Scalar::from(5u64)).to_compressed(),
    )
    .unwrap();
    let p3 = G1Point::from_bytes(
        &bls12_381::G1Affine::from(g * bls12_381::Scalar::from(11u64)).to_compressed(),
    )
    .unwrap();
    let s1 = FieldElement::from_u64(3);
    let s2 = FieldElement::from_u64(7);
    let s3 = FieldElement::from_u64(13);
    let a = g1_lincomb(&vec![p1, p2, p3], &vec![s1, s2, s3]).unwrap();
    let b = g1_lincomb(&vec![p3, p1, p2], &vec![s3, s1, s2]).unwrap();
    let c = g1_lincomb(&vec![p2, p3, p1], &vec![s2, s3, s1]).unwrap();
    assert_eq!(a.to_bytes(), b.to_bytes());
    assert_eq!(a.to_bytes(), c.to_bytes());
}

#[test]
fn g1_point_rejects_garbage() {
    let mut bad = [0u8; 48];
    bad[0] = 0x12;
    assert_eq!(G1Point::from_bytes(&bad).err().unwrap(), Error::InvalidPoint);
}

#[test]
fn g2_point_rejects_garbage() {
    let mut bad = [0u8; 96];
    bad[0] = 0x07;
    assert_eq!(kzg_core::curve::G2Point::from_bytes(&bad).err().unwrap(), Error::InvalidPoint);
}

#[test]
fn g1_point_add_and_scalar_mul_match_the_group() {
    let g = bls12_381::G1Projective::generator();
    let p = G1Point::from_bytes(&bls12_381::G1Affine::from(g).to_compressed()).unwrap();
    let doubled = p.add(&p);
    let scaled = p.scalar_mul(&FieldElement::from_u64(2));
    let expect = bls12_381::G1Affine::from(g * bls12_381::Scalar::from(2u64)).to_compressed();
    assert_eq!(doubled.to_bytes(), expect);
    assert_eq!(scaled.to_bytes(), expect);
}

#[test]
fn load_trusted_setup_shape() {
    let s = load_trusted_setup(&setup_file(8927347)).unwrap();
    assert_eq!(s.secret_g1.len(), 4);
    assert_eq!(s.secret_g2.len(), 2);
    assert_eq!(s.fs.max_width(), 4);
}

#[test]
fn load_trusted_setup_rejects_bad_hex() {
    let mut file = setup_file(11);
    // corrupt one hex digit of the first point line
    file[4] = b'z';
    assert_eq!(load_trusted_setup(&file).err().unwrap(), Error::ParseError);
}

#[test]
fn load_trusted_setup_rejects_wrong_line_length() {
    let file = b"1\n0\nabcdef\n".to_vec();
    assert_eq!(load_trusted_setup(&file).err().unwrap(), Error::ParseError);
}

#[test]
fn load_trusted_setup_rejects_off_curve_point() {
    // 96 hex chars that are not a valid compressed G1 point
    let mut line = String::from("1\n0\n");
    line.push_str(&"12".repeat(48));
    line.push('\n');
    assert_eq!(load_trusted_setup(&line.into_bytes()).err().unwrap(), Error::InvalidPoint);
}

#[test]
fn load_trusted_setup_rejects_bad_count() {
    assert_eq!(load_trusted_setup(&b"x\n2\n".to_vec()).err().unwrap(), Error::ParseError);
    assert_eq!(load_trusted_setup(&b"\n".to_vec()).err().unwrap(), Error::ParseError);
}

#[test]
fn constant_blob_commitment_is_reproducible() {
    let s = load_trusted_setup(&setup_file(8927347)).unwrap();
    let c = 77u64;
    let blob: Vec<FieldElement> = (0..4).map(|_| FieldElement::from_u64(c)).collect();
    let commitment = blob_to_kzg_commitment(&blob, &s).unwrap();
    // the Lagrange basis sums to one, so the commitment is c times the generator
    let expect = bls12_381::G1Affine::from(
        bls12_381::G1Projective::generator() * bls12_381::Scalar::from(c),
    )
    .to_compressed();
    assert_eq!(commitment.to_bytes(), expect);
}

#[test]
fn blob_length_mismatch_fails() {
    let s = load_trusted_setup(&setup_file(8927347)).unwrap();
    let blob: Vec<FieldElement> = (0..3).map(FieldElement::from_u64).collect();
    assert_eq!(blob_to_kzg_commitment(&blob, &s).err().unwrap(), Error::LengthMismatch);
}

#[test]
fn honest_constant_proof_verifies_and_mutations_fail() {
    let s = load_trusted_setup(&setup_file(8927347)).unwrap();
    let c = 77u64;
    let blob: Vec<FieldElement> = (0..4).map(|_| FieldElement::from_u64(c)).collect();
    let commitment = blob_to_kzg_commitment(&blob, &s).unwrap();
    // a constant polynomial's quotient is zero: the honest proof is the identity
    let proof_pt = G1Point::identity();
    // choose a domain point as the evaluation point
    let mut domain = s.fs.roots().clone();
    reverse_bit_order(&mut domain);
    let z = domain[1];
    let y = FieldElement::from_u64(c);
    assert!(verify_kzg_proof(&commitment, &z, &y, &proof_pt, &s));
    // a mutated claimed value must fail
    let y_bad = y.add(&FieldElement::one());
    assert!(!verify_kzg_proof(&commitment, &z, &y_bad, &proof_pt, &s));
    // a wrong proof point must fail
    let wrong = G1Point::from_bytes(
        &bls12_381::G1Affine::generator().to_compressed(),
    )
    .unwrap();
    assert!(!verify_kzg_proof(&commitment, &z, &y, &wrong, &s));
}

#[test]
fn commitment_is_linear_in_the_blob() {
    let s = load_trusted_setup(&setup_file(555)).unwrap();
    let a: Vec<FieldElement> = [1u64, 2, 3, 4].iter().map(|&v| FieldElement::from_u64(v)).collect();
    let b: Vec<FieldElement> = [10u64, 20, 30, 40].iter().map(|&v| FieldElement::from_u64(v)).collect();
    let sum: Vec<FieldElement> = (0..4).map(|i| a[i].add(&b[i])).collect();
    let ca = blob_to_kzg_commitment(&a, &s).unwrap();
    let cb = blob_to_kzg_commitment(&b, &s).unwrap();
    let csum = blob_to_kzg_commitment(&sum, &s).unwrap();
    let pa: Option<bls12_381::G1Affine> = bls12_381::G1Affine::from_compressed(&ca.to_bytes()).into();
    let pb: Option<bls12_381::G1Affine> = bls12_381::G1Affine::from_compressed(&cb.to_bytes()).into();
    let direct = bls12_381::G1Affine::from(
        bls12_381::G1Projective::from(pa.unwrap()) + bls12_381::G1Projective::from(pb.unwrap()),
    );
    assert_eq!(csum.to_bytes(), direct.to_compressed());
}

#[test]
fn evaluation_form_matches_coefficient_form() {
    let s = load_trusted_setup(&setup_file(8927347)).unwrap();
    let coeffs: Vec<FieldElement> = [5u64, 11, 23, 47]
        .iter()
        .map(|&v| FieldElement::from_u64(v))
        .collect();
    // evaluation form over the bit-reversed domain, as the engine stores it
    let mut evals = s.fs.fft_fr(&coeffs, false).unwrap();
    reverse_bit_order(&mut evals);
    let p = Polynomial::new(evals);
    let coeff_poly = Polynomial::new(coeffs);
    // off-domain point
    let x = FieldElement::from_u64(987654321);
    let via_barycentric = evaluate_polynomial_in_evaluation_form(&p, &x, &s).unwrap();
    let direct = coeff_poly.eval(&x);
    assert!(via_barycentric.equals(&direct));
    // domain point: the stored value is returned and still matches
    let mut domain = s.fs.roots().clone();
    reverse_bit_order(&mut domain);
    let z = domain[2];
    let via_domain = evaluate_polynomial_in_evaluation_form(&p, &z, &s).unwrap();
    let direct_domain = coeff_poly.eval(&z);
    assert!(via_domain.equals(&direct_domain));
}

#[test]
fn evaluation_form_length_mismatch_fails() {
    let s = load_trusted_setup(&setup_file(8927347)).unwrap();
    let p = Polynomial::new(vec![FieldElement::one(); 3]);
    let e = evaluate_polynomial_in_evaluation_form(&p, &FieldElement::one(), &s).err().unwrap();
    assert_eq!(e, Error::LengthMismatch);
}

#[test]
fn polynomial_access_is_bounds_checked() {
    let p = Polynomial::new(vec![FieldElement::from_u64(4), FieldElement::from_u64(9)]);
    assert_eq!(p.len(), 2);
    assert!(p.get_coeff_at(1).unwrap().equals(&FieldElement::from_u64(9)));
    assert!(p.get_coeff_at(2).is_none());
}
