//! Points of the two curve groups, held as their canonical compressed
//! encodings, and the multi-scalar multiplication that turns a blob and
//! the SRS into a commitment.
//!
//! Group addition and scalar multiplication are functions of the
//! canonical encodings alone; their results are named by uninterpreted
//! spec functions and computed by the `bls12_381` collaborator behind
//! trusted wrappers.

use vstd::prelude::*;
use crate::Error;
use crate::field::FieldElement;

verus! {

/// Whether 48 bytes are the compressed encoding of a G1 point.
pub uninterp spec fn g1_valid(bytes: Seq<u8>) -> bool;

/// Whether 96 bytes are the compressed encoding of a G2 point.
pub uninterp spec fn g2_valid(bytes: Seq<u8>) -> bool;

/// The compressed encoding of the sum of two G1 points.
pub uninterp spec fn g1_add_pts(a: Seq<u8>, b: Seq<u8>) -> Seq<u8>;

/// The compressed encoding of a G1 point times a scalar value.
pub uninterp spec fn g1_mul_pt(p: Seq<u8>, s: nat) -> Seq<u8>;

/// The compressed encoding of the G1 identity: an infinity flag byte
/// followed by zeros.
pub open spec fn g1_identity_bytes() -> Seq<u8> {
    Seq::new(48, |i: int| if i == 0 { 0xc0u8 } else { 0u8 })
}

/// A point of the first curve group, as its compressed encoding.
#[derive(Clone, Copy)]
pub struct G1Point {
    bytes: [u8; 48],
}

/// A point of the second curve group, as its compressed encoding.
#[derive(Clone, Copy)]
pub struct G2Point {
    bytes: [u8; 96],
}

impl View for G1Point {
    type V = Seq<u8>;

    closed spec fn view(&self) -> Seq<u8> {
        self.bytes@
    }
}

impl View for G2Point {
    type V = Seq<u8>;

    closed spec fn view(&self) -> Seq<u8> {
        self.bytes@
    }
}

impl G1Point {
    #[verifier::type_invariant]
    pub(crate) open spec fn on_curve(self) -> bool {
        g1_valid(self@)
    }
}

impl G2Point {
    #[verifier::type_invariant]
    pub(crate) open spec fn on_curve(self) -> bool {
        g2_valid(self@)
    }
}

/// Relies on `bls12_381::G1Affine::from_compressed`: it accepts exactly
/// the valid 48-byte compressed encodings, identity included.
#[verifier::external_body]
fn g1_check_bytes(b: &[u8; 48]) -> (r: bool)
    ensures
        r == g1_valid(b@),
{
    bool::from(bls12_381::G1Affine::from_compressed(b).is_some())
}

/// Relies on `bls12_381::G2Affine::from_compressed`: it accepts exactly
/// the valid 96-byte compressed encodings, identity included.
#[verifier::external_body]
fn g2_check_bytes(b: &[u8; 96]) -> (r: bool)
    ensures
        r == g2_valid(b@),
{
    bool::from(bls12_381::G2Affine::from_compressed(b).is_some())
}

/// Relies on `bls12_381::G1Affine::identity` and `to_compressed`: the
/// identity is encoded as the infinity flag followed by zeros.
#[verifier::external_body]
fn g1_identity_raw() -> (r: G1Point)
    ensures
        r@ == g1_identity_bytes(),
        g1_valid(r@),
{
    G1Point { bytes: bls12_381::G1Affine::identity().to_compressed() }
}

/// Relies on `bls12_381::G1Projective` addition: the group law is
/// commutative and associative, closed, and has the identity as its
/// neutral element.  Associativity is anchored at the returned sum: any
/// valid point added to it equals the right-nested sum.
#[verifier::external_body]
fn g1_add_raw(a: &G1Point, b: &G1Point) -> (r: G1Point)
    ensures
        r@ == g1_add_pts(a@, b@),
        r@ == g1_add_pts(b@, a@),
        g1_valid(r@),
        a@ == g1_identity_bytes() ==> r@ == b@,
        b@ == g1_identity_bytes() ==> r@ == a@,
        forall|c: Seq<u8>|
            g1_valid(c) ==> #[trigger] g1_add_pts(r@, c) == g1_add_pts(a@, g1_add_pts(b@, c)),
{
    let xa: Option<bls12_381::G1Affine> = bls12_381::G1Affine::from_compressed(&a.bytes).into();
    let ya: Option<bls12_381::G1Affine> = bls12_381::G1Affine::from_compressed(&b.bytes).into();
    let x = bls12_381::G1Projective::from(xa.unwrap());
    let y = bls12_381::G1Projective::from(ya.unwrap());
    G1Point { bytes: bls12_381::G1Affine::from(x + y).to_compressed() }
}

/// Relies on `bls12_381::G1Projective` scalar multiplication: the result
/// depends on the point and the scalar value alone, and zero scales any
/// point to the identity.
#[verifier::external_body]
fn g1_mul_raw(p: &G1Point, s: &FieldElement) -> (r: G1Point)
    ensures
        r@ == g1_mul_pt(p@, s.val()),
        g1_valid(r@),
        s.val() == 0 ==> r@ == g1_identity_bytes(),
{
    let pa: Option<bls12_381::G1Affine> = bls12_381::G1Affine::from_compressed(&p.bytes).into();
    let x = bls12_381::G1Projective::from(pa.unwrap());
    let ks: Option<bls12_381::Scalar> = bls12_381::Scalar::from_bytes(
        &crate::field::bytes_from_bls_field(s),
    ).into();
    let k = ks.unwrap();
    G1Point { bytes: bls12_381::G1Affine::from(x * k).to_compressed() }
}

/// Relies on `bls12_381::G1Affine::from_compressed`: it accepts exactly
/// the valid 48-byte compressed encodings; shorter or longer input is no
/// encoding at all.
#[verifier::external_body]
pub(crate) fn g1_point_from_vec(b: &Vec<u8>) -> (r: Option<G1Point>)
    ensures
        r is Some <==> (b@.len() == 48 && g1_valid(b@)),
        r matches Some(p) ==> p@ == b@,
{
    let arr: [u8; 48] = match b.as_slice().try_into() {
        Ok(a) => a,
        Err(_) => return None,
    };
    if bool::from(bls12_381::G1Affine::from_compressed(&arr).is_some()) {
        Some(G1Point { bytes: arr })
    } else {
        None
    }
}

/// Relies on `bls12_381::G2Affine::from_compressed`: it accepts exactly
/// the valid 96-byte compressed encodings; shorter or longer input is no
/// encoding at all.
#[verifier::external_body]
pub(crate) fn g2_point_from_vec(b: &Vec<u8>) -> (r: Option<G2Point>)
    ensures
        r is Some <==> (b@.len() == 96 && g2_valid(b@)),
        r matches Some(p) ==> p@ == b@,
{
    let arr: [u8; 96] = match b.as_slice().try_into() {
        Ok(a) => a,
        Err(_) => return None,
    };
    if bool::from(bls12_381::G2Affine::from_compressed(&arr).is_some()) {
        Some(G2Point { bytes: arr })
    } else {
        None
    }
}

impl G1Point {
    /// The group identity.
    pub fn identity() -> (r: Self)
        ensures
            r@ == g1_identity_bytes(),
    {
        g1_identity_raw()
    }

    /// Reads a point from its 48-byte compressed encoding; rejects
    /// malformed encodings and off-curve results.
    pub fn from_bytes(bytes: &[u8; 48]) -> (r: Result<Self, Error>)
        ensures
            r is Ok <==> g1_valid(bytes@),
            r matches Ok(p) ==> p@ == bytes@,
            r matches Err(e) ==> e == Error::InvalidPoint,
    {
        if g1_check_bytes(bytes) {
            Ok(G1Point { bytes: *bytes })
        } else {
            Err(Error::InvalidPoint)
        }
    }

    /// Writes the 48-byte compressed encoding of this point.
    pub fn to_bytes(&self) -> (r: [u8; 48])
        ensures
            r@ == self@,
    {
        self.bytes
    }

    /// The sum of two points; the group law is commutative, and
    /// associative at the returned sum.
    pub fn add(&self, other: &Self) -> (r: Self)
        ensures
            r@ == g1_add_pts(self@, other@),
            r@ == g1_add_pts(other@, self@),
            forall|c: Seq<u8>|
                g1_valid(c) ==> #[trigger] g1_add_pts(r@, c) == g1_add_pts(
                    self@,
                    g1_add_pts(other@, c),
                ),
    {
        g1_add_raw(self, other)
    }

    /// A point times a scalar.
    pub fn scalar_mul(&self, s: &FieldElement) -> (r: Self)
        ensures
            r@ == g1_mul_pt(self@, s.val()),
    {
        g1_mul_raw(self, s)
    }
}

impl G2Point {
    /// Reads a point from its 96-byte compressed encoding; rejects
    /// malformed encodings and off-curve results.
    pub fn from_bytes(bytes: &[u8; 96]) -> (r: Result<Self, Error>)
        ensures
            r is Ok <==> g2_valid(bytes@),
            r matches Ok(p) ==> p@ == bytes@,
            r matches Err(e) ==> e == Error::InvalidPoint,
    {
        if g2_check_bytes(bytes) {
            Ok(G2Point { bytes: *bytes })
        } else {
            Err(Error::InvalidPoint)
        }
    }

    /// Writes the 96-byte compressed encoding of this point.
    pub fn to_bytes(&self) -> (r: [u8; 96])
        ensures
            r@ == self@,
    {
        self.bytes
    }
}

/// The encodings of a sequence of points.
pub open spec fn g1_encs(s: Seq<G1Point>) -> Seq<Seq<u8>> {
    s.map_values(|p: G1Point| p@)
}

/// The encodings of a sequence of G2 points.
pub open spec fn g2_encs(s: Seq<G2Point>) -> Seq<Seq<u8>> {
    s.map_values(|p: G2Point| p@)
}

/// The values of a sequence of field elements.
pub open spec fn fr_vals(s: Seq<FieldElement>) -> Seq<nat> {
    s.map_values(|x: FieldElement| x.val())
}

/// The multi-scalar multiplication of the first `k` point/scalar pairs:
/// the sum of each point times its scalar, the empty sum being the
/// identity.
pub open spec fn msm_val(points: Seq<Seq<u8>>, scalars: Seq<nat>, k: int) -> Seq<u8>
    decreases k,
{
    if k <= 0 {
        g1_identity_bytes()
    } else {
        g1_add_pts(msm_val(points, scalars, k - 1), g1_mul_pt(points[k - 1], scalars[k - 1]))
    }
}

/// The linear combination of points with scalars; sequences of unequal
/// length fail.  An empty combination is the identity.
pub fn g1_lincomb(points: &Vec<G1Point>, scalars: &Vec<FieldElement>) -> (r: Result<
    G1Point,
    Error,
>)
    ensures
        r is Ok <==> points@.len() == scalars@.len(),
        r matches Err(e) ==> e == Error::LengthMismatch,
        r matches Ok(p) ==> p@ == msm_val(g1_encs(points@), fr_vals(scalars@), points@.len() as int),
{
    if points.len() != scalars.len() {
        return Err(Error::LengthMismatch);
    }
    let mut out = G1Point::identity();
    let mut i: usize = 0;
    while i < points.len()
        invariant
            points@.len() == scalars@.len(),
            i <= points@.len(),
            out@ == msm_val(g1_encs(points@), fr_vals(scalars@), i as int),
        decreases points@.len() - i,
    {
        let t = g1_mul_raw(&points[i], &scalars[i]);
        out = g1_add_raw(&out, &t);
        proof {
            assert(g1_encs(points@)[i as int] == points@[i as int]@);
            assert(fr_vals(scalars@)[i as int] == scalars@[i as int].val());
        }
        i += 1;
    }
    Ok(out)
}

/// The same combination written onto an out-parameter over the first
/// `len` pairs of two sequences at least that long.
pub fn g1_linear_combination(
    out: &mut G1Point,
    p: &Vec<G1Point>,
    coeffs: &Vec<FieldElement>,
    len: usize,
)
    requires
        len <= p@.len(),
        len <= coeffs@.len(),
    ensures
        final(out)@ == msm_val(g1_encs(p@), fr_vals(coeffs@), len as int),
{
    let mut acc = G1Point::identity();
    let mut i: usize = 0;
    while i < len
        invariant
            len <= p@.len(),
            len <= coeffs@.len(),
            i <= len,
            acc@ == msm_val(g1_encs(p@), fr_vals(coeffs@), i as int),
        decreases len - i,
    {
        let t = g1_mul_raw(&p[i], &coeffs[i]);
        acc = g1_add_raw(&acc, &t);
        proof {
            assert(g1_encs(p@)[i as int] == p@[i as int]@);
            assert(fr_vals(coeffs@)[i as int] == coeffs@[i as int].val());
        }
        i += 1;
    }
    *out = acc;
}

} // verus!
