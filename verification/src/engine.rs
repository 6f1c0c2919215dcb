//! The commitment engine: turning a blob into a commitment with the
//! reference string, evaluating an evaluation-form polynomial anywhere in
//! the field by the barycentric formula, and checking an opening proof
//! through the pairing collaborator.

use vstd::prelude::*;
use bls12_381::{G1Affine, G2Affine, G1Projective, G2Projective, Scalar, pairing};
use crate::Error;
use crate::field::bytes_from_bls_field;
use crate::field::{
    FieldElement, fadd, fsub, fmul, pow_f, inv_f, r_mod, fr_batch_inv, lemma_inv_unique,
};
use crate::curve::{G1Point, G2Point, g1_encs, fr_vals, msm_val};
use crate::fft::rbo_seq;
use crate::poly::Polynomial;
use crate::setup::KZGSettings;
use vstd::arithmetic::div_mod::{lemma_small_mod, lemma_mod_multiples_vanish};

verus! {

/// Whether the canonical KZG pairing identity holds of a commitment, an
/// evaluation point and value, an opening proof, and the two G2
/// reference points.
pub uninterp spec fn pairing_check_pt(
    c: Seq<u8>,
    z: nat,
    y: nat,
    pf: Seq<u8>,
    g2_gen: Seq<u8>,
    g2_s: Seq<u8>,
) -> bool;

/// Relies on `bls12_381::pairing` and the group codecs: whether
/// `e(proof, s2 - z*g2) == e(commitment - y*g1, g2)`, the canonical KZG
/// opening check, a function of the encodings and values alone.
#[verifier::external_body]
fn pairing_check_raw(
    c: &G1Point,
    z: &FieldElement,
    y: &FieldElement,
    pf: &G1Point,
    g2_gen: &G2Point,
    g2_s: &G2Point,
) -> (r: bool)
    ensures
        r == pairing_check_pt(c@, z.val(), y.val(), pf@, g2_gen@, g2_s@),
{
    let cp = G1Projective::from(G1Affine::from_compressed(&c.to_bytes()).unwrap());
    let pp = G1Affine::from_compressed(&pf.to_bytes()).unwrap();
    let gp = G2Affine::from_compressed(&g2_gen.to_bytes()).unwrap();
    let sp = G2Projective::from(G2Affine::from_compressed(&g2_s.to_bytes()).unwrap());
    let zs = Scalar::from_bytes(&bytes_from_bls_field(z)).unwrap();
    let ys = Scalar::from_bytes(&bytes_from_bls_field(y)).unwrap();
    let x_minus_z = sp - G2Projective::from(gp) * zs;
    let c_minus_y = cp - G1Projective::generator() * ys;
    pairing(&pp, &G2Affine::from(x_minus_z)) == pairing(&G1Affine::from(c_minus_y), &gp)
}

/// Commits to a blob: the multi-scalar multiplication of the reference
/// points by the blob elements.  A blob of any other length than the
/// reference string's fails.
pub fn blob_to_kzg_commitment(blob: &Vec<FieldElement>, s: &KZGSettings) -> (r: Result<
    G1Point,
    Error,
>)
    ensures
        r is Ok <==> blob@.len() == s.secret_g1@.len(),
        r matches Err(e) ==> e == Error::LengthMismatch,
        r matches Ok(c) ==> c@ == msm_val(
            g1_encs(s.secret_g1@),
            fr_vals(blob@),
            s.secret_g1@.len() as int,
        ),
{
    crate::curve::g1_lincomb(&s.secret_g1, blob)
}

/// Checks an opening proof: that the committed polynomial takes value
/// `y` at point `z`.  Never fails: any inability to establish validity,
/// a reference string without its two G2 points included, is `false`.
pub fn verify_kzg_proof(
    polynomial_kzg: &G1Point,
    z: &FieldElement,
    y: &FieldElement,
    kzg_proof: &G1Point,
    s: &KZGSettings,
) -> (r: bool)
    ensures
        s.secret_g2@.len() >= 2 ==> r == pairing_check_pt(
            polynomial_kzg@,
            z.val(),
            y.val(),
            kzg_proof@,
            s.secret_g2@[0]@,
            s.secret_g2@[1]@,
        ),
        s.secret_g2@.len() < 2 ==> r == false,
{
    if s.secret_g2.len() < 2 {
        return false;
    }
    pairing_check_raw(polynomial_kzg, z, y, kzg_proof, &s.secret_g2[0], &s.secret_g2[1])
}

/// The barycentric accumulation over the first `k` domain points: each
/// term is the inverse of `x - w_i`, times `w_i`, times the stored value.
pub open spec fn bary_sum(vals: Seq<nat>, roots: Seq<nat>, x: nat, k: int) -> nat
    decreases k,
{
    if k <= 0 {
        0
    } else {
        fadd(
            bary_sum(vals, roots, x, k - 1),
            fmul(fmul(inv_f(fsub(x, roots[k - 1])), roots[k - 1]), vals[k - 1]),
        )
    }
}

/// Two canonical residues with a zero field difference are equal.
proof fn lemma_fsub_zero_iff(x: nat, w: nat)
    requires
        x < r_mod(),
        w < r_mod(),
    ensures
        (fsub(x, w) == 0) <==> (x == w),
{
    if x == w {
        assert((x + r_mod() - w) == r_mod());
        lemma_mod_multiples_vanish(1, 0, r_mod() as int);
        lemma_small_mod(0, r_mod());
    } else if x > w {
        lemma_mod_multiples_vanish(1, (x - w) as int, r_mod() as int);
        lemma_small_mod((x - w) as nat, r_mod());
    } else {
        lemma_small_mod((x + r_mod() - w) as nat, r_mod());
    }
}

/// Evaluates an evaluation-form polynomial at any field point.  At a
/// domain point (in the bit-reversed ordering the reference string uses)
/// the stored value at the first matching index is returned directly;
/// elsewhere the barycentric formula
/// `(x^n - 1) / n * sum(w_i * y_i / (x - w_i))` is applied with one
/// batch inversion.  A polynomial of any other length than the domain
/// width fails.
pub fn evaluate_polynomial_in_evaluation_form(
    p: &Polynomial,
    x: &FieldElement,
    s: &KZGSettings,
) -> (r: Result<FieldElement, Error>)
    ensures
        r is Ok <==> p.coeffs@.len() == s.fs.width(),
        r matches Err(e) ==> e == Error::LengthMismatch,
        r matches Ok(v) ==> {
            let roots = rbo_seq(s.fs.roots_vals());
            let n = s.fs.width();
            &&& (exists|i: int| 0 <= i < n && roots[i] == x.val()) ==> (exists|i: int|
                {
                    &&& 0 <= i < n
                    &&& roots[i] == x.val()
                    &&& v.val() == fr_vals(p.coeffs@)[i]
                    &&& forall|j: int| 0 <= j < i ==> roots[j] != x.val()
                })
            &&& !(exists|i: int| 0 <= i < n && roots[i] == x.val()) ==> v.val() == fmul(
                fmul(bary_sum(fr_vals(p.coeffs@), roots, x.val(), n as int), inv_f(n)),
                fsub(pow_f(x.val(), n), 1),
            )
        },
{
    let width = s.fs.max_width();
    if p.len() != width {
        return Err(Error::LengthMismatch);
    }
    let base_roots = s.fs.roots();
    let mut roots_of_unity: Vec<FieldElement> = Vec::new();
    let mut c: usize = 0;
    while c < base_roots.len()
        invariant
            c <= base_roots@.len(),
            roots_of_unity@.len() == c,
            forall|j: int| 0 <= j < c ==> #[trigger] roots_of_unity@[j] == base_roots@[j],
        decreases base_roots@.len() - c,
    {
        roots_of_unity.push(base_roots[c]);
        c += 1;
    }
    proof {
        assert(roots_of_unity@ =~= base_roots@);
    }
    reverse_bit_order_roots(&mut roots_of_unity, Ghost(s));
    let ghost roots = rbo_seq(s.fs.roots_vals());
    proof {
        assert(fr_vals(roots_of_unity@) =~= roots);
    }
    let mut inverses_in: Vec<FieldElement> = Vec::new();
    let mut i: usize = 0;
    while i < width
        invariant
            width == s.fs.width(),
            p.coeffs@.len() == width,
            roots_of_unity@.len() == width,
            roots == rbo_seq(s.fs.roots_vals()),
            fr_vals(roots_of_unity@) == roots,
            i <= width,
            inverses_in@.len() == i,
            forall|j: int| 0 <= j < i ==> roots[j] != x.val(),
            forall|j: int|
                0 <= j < i ==> (#[trigger] inverses_in@[j]).val() == fsub(x.val(), roots[j]),
            forall|j: int| 0 <= j < i ==> (#[trigger] inverses_in@[j]).val() != 0,
        decreases width - i,
    {
        let w_i = &roots_of_unity[i];
        if x.equals(w_i) {
            let out = p.coeffs[i];
            proof {
                assert(roots[i as int] == w_i.val());
                assert(out.val() == fr_vals(p.coeffs@)[i as int]);
                assert(exists|ii: int|
                    {
                        &&& 0 <= ii < s.fs.width()
                        &&& roots[ii] == x.val()
                        &&& out.val() == fr_vals(p.coeffs@)[ii]
                        &&& forall|j: int| 0 <= j < ii ==> roots[j] != x.val()
                    }) by {
                    assert({
                        &&& 0 <= (i as int) && (i as int) < s.fs.width()
                        &&& roots[i as int] == x.val()
                        &&& out.val() == fr_vals(p.coeffs@)[i as int]
                        &&& forall|j: int| 0 <= j < (i as int) ==> roots[j] != x.val()
                    });
                }
            }
            return Ok(out);
        }
        proof {
            use_type_invariant(x);
            use_type_invariant(w_i);
            lemma_fsub_zero_iff(x.val(), w_i.val());
        }
        inverses_in.push(x.sub(w_i));
        i += 1;
    }
    let inverses = match fr_batch_inv(&inverses_in) {
        Ok(v) => v,
        Err(_) => {
            return Err(Error::LengthMismatch);
        },
    };
    let mut out = FieldElement::zero();
    let mut k: usize = 0;
    while k < width
        invariant
            width == s.fs.width(),
            p.coeffs@.len() == width,
            roots_of_unity@.len() == width,
            inverses_in@.len() == width,
            inverses@.len() == width,
            roots == rbo_seq(s.fs.roots_vals()),
            fr_vals(roots_of_unity@) == roots,
            forall|j: int|
                0 <= j < width ==> (#[trigger] inverses_in@[j]).val() == fsub(x.val(), roots[j]),
            forall|j: int|
                0 <= j < width ==> fmul(
                    (#[trigger] inverses@[j]).val(),
                    inverses_in@[j].val(),
                ) == 1,
            forall|j: int| 0 <= j < width ==> (#[trigger] inverses@[j]).val() < r_mod(),
            k <= width,
            out.val() == bary_sum(fr_vals(p.coeffs@), roots, x.val(), k as int),
        decreases width - k,
    {
        proof {
            let d = fsub(x.val(), roots[k as int]);
            let iv = inverses@[k as int].val();
            assert(inv_f(d) == iv) by {
                assert(iv < r_mod() && fmul(d, iv) == 1) by {
                    assert(fmul(iv, d) == 1);
                    vstd::arithmetic::mul::lemma_mul_is_commutative(d as int, iv as int);
                }
                assert(inv_f(d) < r_mod() && fmul(d, inv_f(d)) == 1) by {
                    assert(iv < r_mod() && fmul(d, iv) == 1);
                }
                lemma_inv_unique(d, inv_f(d), iv);
            }
        }
        let mut tmp = inverses[k].mul(&roots_of_unity[k]);
        tmp = tmp.mul(&p.coeffs[k]);
        out = out.add(&tmp);
        proof {
            assert(fr_vals(p.coeffs@)[k as int] == p.coeffs@[k as int].val());
        }
        k += 1;
    }
    let n_el = FieldElement::from_u64(width as u64);
    let quotient = match out.div(&n_el) {
        Ok(q) => q,
        Err(_) => {
            return Err(Error::LengthMismatch);
        },
    };
    proof {
        let n = s.fs.width();
        assert(inv_f(n) == inv_f(n_el.val()));
    }
    let mut tmp = x.pow(width as u64);
    tmp = tmp.sub(&FieldElement::one());
    Ok(quotient.mul(&tmp))
}

/// Applies the bit-reversal permutation to a copy of the domain; a
/// helper keeping the ghost tie between the permuted elements and the
/// permuted value sequence.
fn reverse_bit_order_roots(values: &mut Vec<FieldElement>, Ghost(s): Ghost<&KZGSettings>)
    requires
        old(values)@.len() == s.fs.width(),
        fr_vals(old(values)@) == s.fs.roots_vals(),
        crate::fft::is_pow2(old(values)@.len()),
    ensures
        final(values)@.len() == old(values)@.len(),
        fr_vals(final(values)@) == rbo_seq(s.fs.roots_vals()),
{
    crate::fft::reverse_bit_order(values);
    proof {
        assert(fr_vals(values@) =~= rbo_seq(s.fs.roots_vals())) by {
            assert forall|i: int| 0 <= i < values@.len() implies fr_vals(values@)[i] == rbo_seq(
                s.fs.roots_vals(),
            )[i] by {
                crate::fft::lemma_bitrev_bound(i as nat, crate::fft::log2(values@.len()));
                crate::fft::lemma_pow2_log2(values@.len());
            }
        }
    }
}

} // verus!
