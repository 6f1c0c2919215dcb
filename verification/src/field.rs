//! Exact arithmetic over the BLS12-381 scalar field.
//!
//! A `FieldElement` holds the canonical 32-byte little-endian encoding of
//! an element of the prime field of order `r_mod()`.  Its mathematical
//! value is `le_bytes_val` of those bytes, and every operation's contract
//! is stated as exact modular arithmetic over that value.  The modular
//! arithmetic itself is done by the `bls12_381` collaborator behind
//! trusted wrappers.

use vstd::prelude::*;
use vstd::arithmetic::div_mod::*;
use vstd::arithmetic::mul::*;
use vstd::arithmetic::power2::pow2;
use crate::Error;

verus! {

/// The order of the BLS12-381 scalar field.
pub open spec fn r_mod() -> nat {
    52435875175126190479447740508185965837690552500527637822603658699938581184513nat
}

/// The value of a little-endian byte string.
pub open spec fn le_bytes_val(s: Seq<u8>) -> nat
    decreases s.len(),
{
    if s.len() == 0 {
        0
    } else {
        s.first() as nat + 256 * le_bytes_val(s.drop_first())
    }
}

/// Field addition on values.
pub open spec fn fadd(a: nat, b: nat) -> nat {
    (a + b) % r_mod()
}

/// Field subtraction on values (for canonical operands).
pub open spec fn fsub(a: nat, b: nat) -> nat {
    (((a + r_mod()) - b) % (r_mod() as int)) as nat
}

/// Field multiplication on values.
pub open spec fn fmul(a: nat, b: nat) -> nat {
    (a * b) % r_mod()
}

/// Field exponentiation on values.
pub open spec fn pow_f(b: nat, e: nat) -> nat
    decreases e,
{
    if e == 0 {
        1
    } else {
        fmul(b, pow_f(b, (e - 1) as nat))
    }
}

/// The multiplicative inverse of a nonzero value.
pub open spec fn inv_f(a: nat) -> nat {
    choose|y: nat| y < r_mod() && fmul(a, y) == 1
}

/// An element of the scalar field, as its canonical encoding.
#[derive(Clone, Copy)]
pub struct FieldElement {
    bytes: [u8; 32],
}

impl FieldElement {
    /// The mathematical value of this element.
    pub closed spec fn val(&self) -> nat {
        le_bytes_val(self.bytes@)
    }

    #[verifier::type_invariant]
    pub(crate) open spec fn canonical(self) -> bool {
        self.val() < r_mod()
    }

}

/// Relies on `bls12_381::Scalar`: `from_bytes` reads the canonical
/// little-endian encoding, `+` is addition mod r, `to_bytes` writes the
/// canonical encoding of the sum.
#[verifier::external_body]
fn fr_add(a: &FieldElement, b: &FieldElement) -> (r: FieldElement)
    ensures
        r.val() == fadd(a.val(), b.val()),
{
    let x: bls12_381::Scalar = Option::from(bls12_381::Scalar::from_bytes(&a.bytes)).unwrap();
    let y: bls12_381::Scalar = Option::from(bls12_381::Scalar::from_bytes(&b.bytes)).unwrap();
    FieldElement { bytes: (x + y).to_bytes() }
}

/// Relies on `bls12_381::Scalar`: `-` is subtraction mod r on canonical
/// encodings.
#[verifier::external_body]
fn fr_sub(a: &FieldElement, b: &FieldElement) -> (r: FieldElement)
    ensures
        r.val() == fsub(a.val(), b.val()),
{
    let x: bls12_381::Scalar = Option::from(bls12_381::Scalar::from_bytes(&a.bytes)).unwrap();
    let y: bls12_381::Scalar = Option::from(bls12_381::Scalar::from_bytes(&b.bytes)).unwrap();
    FieldElement { bytes: (x - y).to_bytes() }
}

/// Relies on `bls12_381::Scalar`: `*` is multiplication mod r on
/// canonical encodings; a product of two nonzero elements of the prime
/// field is nonzero.
#[verifier::external_body]
fn fr_mul(a: &FieldElement, b: &FieldElement) -> (r: FieldElement)
    ensures
        r.val() == fmul(a.val(), b.val()),
        a.val() != 0 && a.val() < r_mod() && b.val() != 0 && b.val() < r_mod() ==> r.val() != 0,
{
    let x: bls12_381::Scalar = Option::from(bls12_381::Scalar::from_bytes(&a.bytes)).unwrap();
    let y: bls12_381::Scalar = Option::from(bls12_381::Scalar::from_bytes(&b.bytes)).unwrap();
    FieldElement { bytes: (x * y).to_bytes() }
}

/// Relies on `bls12_381::Scalar::invert`: it returns the multiplicative
/// inverse of a nonzero element and nothing for zero.
#[verifier::external_body]
fn fr_inv(a: &FieldElement) -> (r: Option<FieldElement>)
    ensures
        r is None <==> a.val() == 0,
        r matches Some(y) ==> fmul(a.val(), y.val()) == 1 && y.val() < r_mod(),
{
    let x: bls12_381::Scalar = Option::from(bls12_381::Scalar::from_bytes(&a.bytes)).unwrap();
    Option::from(x.invert()).map(|i: bls12_381::Scalar| FieldElement { bytes: i.to_bytes() })
}

/// Relies on `bls12_381::Scalar::from(u64)`: it embeds an integer below r
/// as the field element of that value.
#[verifier::external_body]
fn fr_from_u64(v: u64) -> (r: FieldElement)
    ensures
        r.val() == v as nat,
{
    FieldElement { bytes: bls12_381::Scalar::from(v).to_bytes() }
}

/// Relies on `bls12_381::Scalar::from_bytes`: it accepts exactly the
/// little-endian encodings of values below r.
#[verifier::external_body]
fn fr_bytes_canonical(b: &[u8; 32]) -> (r: bool)
    ensures
        r == (le_bytes_val(b@) < r_mod()),
{
    bool::from(bls12_381::Scalar::from_bytes(b).is_some())
}

/// Relies on `ff::PrimeField` for `bls12_381::Scalar`: `ROOT_OF_UNITY`
/// is a primitive 2^32 root of unity of the scalar field.
#[verifier::external_body]
pub(crate) fn fr_root_of_unity() -> (r: FieldElement)
    ensures
        pow_f(r.val(), pow2(32)) == 1,
        pow_f(r.val(), pow2(31)) != 1,
{
    FieldElement { bytes: <bls12_381::Scalar as ff::PrimeField>::ROOT_OF_UNITY.to_bytes() }
}

impl FieldElement {
    /// The zero element.
    pub fn zero() -> (r: Self)
        ensures
            r.val() == 0,
    {
        fr_from_u64(0)
    }

    /// The one element.
    pub fn one() -> (r: Self)
        ensures
            r.val() == 1,
    {
        fr_from_u64(1)
    }

    /// The element of a small integer value.
    pub fn from_u64(v: u64) -> (r: Self)
        ensures
            r.val() == v as nat,
    {
        fr_from_u64(v)
    }

    /// The sum of two elements.
    pub fn add(&self, other: &Self) -> (r: Self)
        ensures
            r.val() == fadd(self.val(), other.val()),
    {
        fr_add(self, other)
    }

    /// The difference of two elements.
    pub fn sub(&self, other: &Self) -> (r: Self)
        ensures
            r.val() == fsub(self.val(), other.val()),
    {
        fr_sub(self, other)
    }

    /// The product of two elements.
    pub fn mul(&self, other: &Self) -> (r: Self)
        ensures
            r.val() == fmul(self.val(), other.val()),
    {
        fr_mul(self, other)
    }

    /// Whether two elements are equal, decided on the canonical bytes.
    pub fn equals(&self, other: &Self) -> (r: bool)
        ensures
            r == (self.val() == other.val()),
    {
        let mut i: usize = 0;
        while i < 32
            invariant
                i <= 32,
                self.bytes@.subrange(0, i as int) =~= other.bytes@.subrange(0, i as int),
            decreases 32 - i,
        {
            if self.bytes[i] != other.bytes[i] {
                proof {
                    if self.val() == other.val() {
                        lemma_le_bytes_val_injective(self.bytes@, other.bytes@);
                        assert(self.bytes@[i as int] == other.bytes@[i as int]);
                    }
                }
                return false;
            }
            proof {
                assert(self.bytes@.subrange(0, (i + 1) as int)
                    =~= self.bytes@.subrange(0, i as int).push(self.bytes@[i as int]));
                assert(other.bytes@.subrange(0, (i + 1) as int)
                    =~= other.bytes@.subrange(0, i as int).push(other.bytes@[i as int]));
            }
            i += 1;
        }
        proof {
            assert(self.bytes@ =~= self.bytes@.subrange(0, 32));
            assert(other.bytes@ =~= other.bytes@.subrange(0, 32));
        }
        true
    }
}

/// Equal values have equal little-endian encodings of equal length.
pub proof fn lemma_le_bytes_val_injective(a: Seq<u8>, b: Seq<u8>)
    requires
        a.len() == b.len(),
        le_bytes_val(a) == le_bytes_val(b),
    ensures
        a =~= b,
    decreases a.len(),
{
    if a.len() > 0 {
        let ta = a.drop_first();
        let tb = b.drop_first();
        assert(le_bytes_val(a) == a.first() as nat + 256 * le_bytes_val(ta));
        assert(le_bytes_val(b) == b.first() as nat + 256 * le_bytes_val(tb));
        lemma_mod_multiples_vanish(le_bytes_val(ta) as int, a.first() as int, 256);
        lemma_mod_multiples_vanish(le_bytes_val(tb) as int, b.first() as int, 256);
        lemma_small_mod(a.first() as nat, 256);
        lemma_small_mod(b.first() as nat, 256);
        assert(a.first() == b.first());
        lemma_le_bytes_val_injective(ta, tb);
        assert forall|i: int| 0 <= i < a.len() implies a[i] == b[i] by {
            if i > 0 {
                assert(a[i] == ta[i - 1]);
                assert(b[i] == tb[i - 1]);
            }
        }
    }
}

/// Multiplication of residues is associative.
pub proof fn lemma_fmul_assoc(a: nat, b: nat, c: nat)
    ensures
        fmul(fmul(a, b), c) == fmul(a, fmul(b, c)),
{
    lemma_mul_mod_noop_general((a * b) as int, c as int, r_mod() as int);
    lemma_mul_mod_noop_general(a as int, (b * c) as int, r_mod() as int);
    lemma_mul_is_associative(a as int, b as int, c as int);
}

/// A residue below the field order is its own remainder under `fmul` by one.
pub proof fn lemma_fmul_one(a: nat)
    requires
        a < r_mod(),
    ensures
        fmul(a, 1) == a,
        fmul(1, a) == a,
{
    lemma_small_mod(a, r_mod());
}

/// A nonzero residue has at most one inverse below the field order.
pub proof fn lemma_inv_unique(a: nat, y1: nat, y2: nat)
    requires
        fmul(a, y1) == 1,
        fmul(a, y2) == 1,
        y1 < r_mod(),
        y2 < r_mod(),
    ensures
        y1 == y2,
{
    lemma_fmul_assoc(y1, a, y2);
    assert(fmul(y1, a) == fmul(a, y1)) by {
        lemma_mul_is_commutative(y1 as int, a as int);
    }
    lemma_fmul_one(y1);
    lemma_fmul_one(y2);
    assert(fmul(1, y2) == fmul(y1, fmul(a, y2)));
}

/// Squaring the base halves the exponent.
pub proof fn lemma_pow_f_even(b: nat, k: nat)
    ensures
        pow_f(b, 2 * k) == pow_f(fmul(b, b), k),
    decreases k,
{
    if k > 0 {
        lemma_pow_f_even(b, (k - 1) as nat);
        assert(pow_f(b, 2 * k) == fmul(b, pow_f(b, (2 * k - 1) as nat)));
        assert(pow_f(b, (2 * k - 1) as nat) == fmul(b, pow_f(b, (2 * k - 2) as nat)));
        assert(pow_f(b, 2 * k) == fmul(b, fmul(b, pow_f(b, (2 * k - 2) as nat))));
        lemma_fmul_assoc(b, b, pow_f(b, (2 * k - 2) as nat));
        assert(fmul(fmul(b, b) % r_mod(), pow_f(b, (2 * k - 2) as nat))
            == fmul(fmul(b, b), pow_f(b, (2 * k - 2) as nat))) by {
            lemma_mul_mod_noop_general(
                (b * b) as int,
                pow_f(b, (2 * k - 2) as nat) as int,
                r_mod() as int,
            );
        }
    }
}

impl FieldElement {
    /// Raises an element to a power by square and multiply.
    pub fn pow(&self, e: u64) -> (r: Self)
        ensures
            r.val() == pow_f(self.val(), e as nat),
    {
        let mut base = *self;
        let mut acc = Self::one();
        let mut n = e;
        while n > 0
            invariant
                acc.val() < r_mod(),
                pow_f(self.val(), e as nat) == fmul(acc.val(), pow_f(base.val(), n as nat)),
            decreases n,
        {
            let ghost a0 = acc.val();
            let ghost b0 = base.val();
            let ghost n0 = n as nat;
            if n % 2 == 1 {
                acc = fr_mul(&acc, &base);
            }
            base = fr_mul(&base, &base);
            n = n / 2;
            proof {
                lemma_pow_f_even(b0, n as nat);
                if n0 % 2 == 1 {
                    assert(n0 == 2 * (n as nat) + 1);
                    assert(pow_f(b0, n0) == fmul(b0, pow_f(b0, 2 * (n as nat))));
                    lemma_fmul_assoc(a0, b0, pow_f(b0, 2 * (n as nat)));
                    assert(fmul(fmul(a0, b0) % r_mod(), pow_f(base.val(), n as nat))
                        == fmul(fmul(a0, b0), pow_f(base.val(), n as nat))) by {
                        lemma_mul_mod_noop_general(
                            (a0 * b0) as int,
                            pow_f(base.val(), n as nat) as int,
                            r_mod() as int,
                        );
                    }
                } else {
                    assert(n0 == 2 * (n as nat));
                }
            }
        }
        proof {
            assert(pow_f(base.val(), 0) == 1);
            lemma_fmul_one(acc.val());
        }
        acc
    }

    /// Divides one element by another; division by zero fails.
    pub fn div(&self, other: &Self) -> (r: Result<Self, Error>)
        ensures
            r is Err <==> other.val() == 0,
            r matches Err(e) ==> e == Error::DivisionByZero,
            r matches Ok(q) ==> {
                &&& fmul(q.val(), other.val()) == self.val()
                &&& q.val() == fmul(self.val(), inv_f(other.val()))
            },
    {
        proof {
            use_type_invariant(self);
        }
        match fr_inv(other) {
            None => Err(Error::DivisionByZero),
            Some(y) => {
                let q = fr_mul(self, &y);
                proof {
                    assert(inv_f(other.val()) == y.val()) by {
                        let w = inv_f(other.val());
                        assert(w < r_mod() && fmul(other.val(), w) == 1) by {
                            assert(y.val() < r_mod() && fmul(other.val(), y.val()) == 1);
                        }
                        lemma_inv_unique(other.val(), w, y.val());
                    }
                    lemma_fmul_assoc(self.val(), y.val(), other.val());
                    assert(fmul(y.val(), other.val()) == fmul(other.val(), y.val())) by {
                        lemma_mul_is_commutative(y.val() as int, other.val() as int);
                    }
                    lemma_fmul_one(self.val());
                    assert(fmul(q.val(), other.val()) == fmul(self.val(), fmul(y.val(), other.val())))
                        by {
                        lemma_mul_mod_noop_general(
                            (self.val() * y.val()) as int,
                            other.val() as int,
                            r_mod() as int,
                        );
                    }
                }
                Ok(q)
            },
        }
    }
}

/// The product of the values of the first `k` elements, as a residue.
pub open spec fn prod_val(a: Seq<FieldElement>, k: int) -> nat
    decreases k,
{
    if k <= 0 {
        1
    } else {
        fmul(prod_val(a, k - 1), a[k - 1].val())
    }
}

/// Inverts every element of a sequence at the cost of one field inversion
/// and a linear number of multiplications, by the running-product trick.
/// Each output multiplied by its input gives one; a zero anywhere fails.
pub fn fr_batch_inv(a: &Vec<FieldElement>) -> (r: Result<Vec<FieldElement>, Error>)
    ensures
        r is Ok <==> (forall|i: int| 0 <= i < a@.len() ==> #[trigger] a@[i].val() != 0),
        r matches Err(e) ==> e == Error::DivisionByZero,
        r matches Ok(out) ==> {
            &&& out@.len() == a@.len()
            &&& forall|i: int|
                0 <= i < a@.len() ==> fmul(#[trigger] out@[i].val(), a@[i].val()) == 1
            &&& forall|i: int| 0 <= i < a@.len() ==> #[trigger] out@[i].val() < r_mod()
        },
{
    let n = a.len();
    let mut prod: Vec<FieldElement> = Vec::new();
    let mut acc = FieldElement::one();
    let mut i: usize = 0;
    while i < n
        invariant
            n == a@.len(),
            i <= n,
            prod@.len() == i,
            acc.val() == prod_val(a@, i as int),
            acc.val() != 0,
            forall|j: int| 0 <= j < i ==> #[trigger] prod@[j].val() == prod_val(a@, j + 1),
            forall|j: int| 0 <= j < i ==> #[trigger] a@[j].val() != 0,
        decreases n - i,
    {
        let ai = &a[i];
        proof {
            use_type_invariant(ai);
        }
        if ai.equals(&FieldElement::zero()) {
            return Err(Error::DivisionByZero);
        }
        acc = fr_mul(&acc, ai);
        prod.push(acc);
        i += 1;
    }
    let inv_last = match fr_inv(&acc) {
        Some(y) => y,
        None => {
            return Err(Error::DivisionByZero);
        },
    };
    // inv holds the inverse of the product of a[0..i+1] while unwinding.
    let mut out: Vec<FieldElement> = Vec::new();
    let mut k: usize = 0;
    while k < n
        invariant
            n == a@.len(),
            k <= n,
            out@.len() == k,
            forall|j: int| 0 <= j < k ==> #[trigger] out@[j].val() == 0,
        decreases n - k,
    {
        out.push(FieldElement::zero());
        k += 1;
    }
    let mut inv = inv_last;
    let mut i2: usize = n;
    while i2 > 1
        invariant
            n == a@.len(),
            n == out@.len(),
            n == prod@.len(),
            i2 <= n,
            n > 0 ==> 1 <= i2,
            n > 0 ==> fmul(inv.val(), prod_val(a@, i2 as int)) == 1,
            inv.val() < r_mod(),
            forall|j: int| 0 <= j < n ==> #[trigger] a@[j].val() != 0,
            forall|j: int| 0 <= j < n ==> #[trigger] prod@[j].val() == prod_val(a@, j + 1),
            forall|j: int|
                i2 <= j < n ==> fmul(#[trigger] out@[j].val(), a@[j].val()) == 1,
            forall|j: int| 0 <= j < n ==> #[trigger] out@[j].val() < r_mod(),
        decreases i2,
    {
        let idx = i2 - 1;
        let o = fr_mul(&prod[idx - 1], &inv);
        out[idx] = o;
        let ghost inv0 = inv.val();
        inv = fr_mul(&a[idx], &inv);
        proof {
            // out[idx] * a[idx] == prod[idx-1] * inv * a[idx]
            //                   == inv * (prod[idx-1] * a[idx]) == inv * prod[idx] == 1.
            lemma_batch_inv_step(a@, idx as int, inv0, o.val());
            // the new inv inverts the one-shorter prefix product
            lemma_mul_is_commutative(a@[idx as int].val() as int, inv0 as int);
            lemma_mul_mod_noop_general(
                (a@[idx as int].val() * inv0) as int,
                prod_val(a@, idx as int) as int,
                r_mod() as int,
            );
            lemma_fmul_assoc(inv0, a@[idx as int].val(), prod_val(a@, idx as int));
            lemma_mul_is_commutative(
                a@[idx as int].val() as int,
                prod_val(a@, idx as int) as int,
            );
            lemma_mul_mod_noop_general(
                prod_val(a@, idx as int) as int,
                a@[idx as int].val() as int,
                r_mod() as int,
            );
            assert(fmul(inv.val(), prod_val(a@, idx as int)) == 1);
        }
        i2 = idx;
    }
    if n > 0 {
        let a0 = &a[0];
        proof {
            assert(prod_val(a@, 0) == 1);
            assert(prod_val(a@, 1) == fmul(prod_val(a@, 0), a@[0].val()));
            use_type_invariant(a0);
            lemma_fmul_one(a@[0].val());
            lemma_mul_is_commutative(inv.val() as int, a@[0].val() as int);
        }
        out[0] = inv;
    }
    Ok(out)
}

/// One unwinding step of the batch inversion: if `inv` inverts the product
/// of the first `idx + 1` values, then `prod_val(_, idx) * inv` inverts the
/// value at `idx`.
proof fn lemma_batch_inv_step(a: Seq<FieldElement>, idx: int, inv: nat, o: nat)
    requires
        0 <= idx < a.len(),
        fmul(inv, prod_val(a, idx + 1)) == 1,
        o == fmul(prod_val(a, idx), inv),
    ensures
        fmul(o, a[idx].val()) == 1,
{
    let p = prod_val(a, idx);
    let x = a[idx].val();
    lemma_mul_mod_noop_general((p * inv) as int, x as int, r_mod() as int);
    lemma_fmul_assoc(p, inv, x);
    lemma_mul_is_commutative(inv as int, x as int);
    lemma_mul_mod_noop_general(inv as int, (x * p) as int, r_mod() as int);
    lemma_fmul_assoc(inv, x, p);
    // fmul(p, fmul(inv, x)) == fmul(inv, fmul(x, p)) == fmul(inv, prod_val(a, idx + 1))
    lemma_mul_is_commutative(p as int, (fmul(inv, x)) as int);
    lemma_mul_mod_noop_general(p as int, (inv * x) as int, r_mod() as int);
    lemma_mul_mod_noop_general((inv * x) as int, p as int, r_mod() as int);
    lemma_mul_is_commutative(x as int, p as int);
    assert(fmul(o, x) == fmul(fmul(p, inv), x));
}

/// The geometric sequence of the first `n` powers of a base, starting at one.
pub fn compute_powers(base: &FieldElement, num_powers: usize) -> (r: Vec<FieldElement>)
    ensures
        r@.len() == num_powers,
        forall|i: int| 0 <= i < num_powers ==> #[trigger] r@[i].val() == pow_f(base.val(), i as nat),
{
    let mut powers: Vec<FieldElement> = Vec::new();
    if num_powers == 0 {
        return powers;
    }
    let mut cur = FieldElement::one();
    powers.push(cur);
    let mut i: usize = 1;
    while i < num_powers
        invariant
            1 <= i <= num_powers,
            powers@.len() == i,
            forall|j: int| 0 <= j < i ==> #[trigger] powers@[j].val() == pow_f(base.val(), j as nat),
            cur.val() == pow_f(base.val(), (i - 1) as nat),
        decreases num_powers - i,
    {
        cur = fr_mul(&cur, base);
        proof {
            lemma_pow_f_succ(base.val(), (i - 1) as nat);
        }
        powers.push(cur);
        i += 1;
    }
    powers
}

/// Multiplying one more base factor raises the exponent by one.
pub proof fn lemma_pow_f_succ(b: nat, e: nat)
    ensures
        pow_f(b, e + 1) == fmul(pow_f(b, e), b),
    decreases e,
{
    if e == 0 {
        lemma_mul_is_commutative(b as int, 1);
    } else {
        lemma_pow_f_succ(b, (e - 1) as nat);
        lemma_fmul_assoc(b, pow_f(b, (e - 1) as nat), b);
        assert(pow_f(b, e + 1) == fmul(b, pow_f(b, e)));
        assert(fmul(b, fmul(pow_f(b, (e - 1) as nat), b)) == fmul(fmul(b, pow_f(b, (e - 1) as nat)), b));
    }
}

/// The componentwise linear combination of `j` vectors at index `i`.
pub open spec fn lincomb_val(vs: Seq<Vec<FieldElement>>, ss: Seq<FieldElement>, j: int, i: int) -> nat
    decreases j,
{
    if j <= 0 {
        0
    } else {
        fadd(lincomb_val(vs, ss, j - 1, i), fmul(vs[j - 1]@[i].val(), ss[j - 1].val()))
    }
}

/// The componentwise linear combination of equal-length vectors of field
/// elements with a matching sequence of scalars.
pub fn vector_lincomb(vectors: &Vec<Vec<FieldElement>>, scalars: &Vec<FieldElement>) -> (r: Vec<
    FieldElement,
>)
    requires
        vectors@.len() == scalars@.len(),
        vectors@.len() > 0,
        forall|j: int|
            0 <= j < vectors@.len() ==> (#[trigger] vectors@[j])@.len() == vectors@[0]@.len(),
    ensures
        r@.len() == vectors@[0]@.len(),
        forall|i: int|
            0 <= i < r@.len() ==> #[trigger] r@[i].val() == lincomb_val(
                vectors@,
                scalars@,
                vectors@.len() as int,
                i,
            ),
{
    let width = vectors[0].len();
    let mut out: Vec<FieldElement> = Vec::new();
    let mut k: usize = 0;
    while k < width
        invariant
            k <= width,
            out@.len() == k,
            forall|i: int| 0 <= i < k ==> #[trigger] out@[i].val() == 0,
        decreases width - k,
    {
        out.push(FieldElement::zero());
        k += 1;
    }
    let mut j: usize = 0;
    while j < vectors.len()
        invariant
            vectors@.len() == scalars@.len(),
            forall|t: int|
                0 <= t < vectors@.len() ==> (#[trigger] vectors@[t])@.len() == width,
            vectors@.len() > 0,
            width == vectors@[0]@.len(),
            j <= vectors@.len(),
            out@.len() == width,
            forall|i: int|
                0 <= i < width ==> #[trigger] out@[i].val() == lincomb_val(
                    vectors@,
                    scalars@,
                    j as int,
                    i,
                ),
        decreases vectors@.len() - j,
    {
        let v = &vectors[j];
        let s = &scalars[j];
        let mut i: usize = 0;
        while i < width
            invariant
                vectors@.len() == scalars@.len(),
                forall|t: int|
                    0 <= t < vectors@.len() ==> (#[trigger] vectors@[t])@.len() == width,
                0 <= j < vectors@.len(),
                v == vectors@[j as int],
                s == scalars@[j as int],
                i <= width,
                out@.len() == width,
                forall|t: int|
                    0 <= t < i ==> #[trigger] out@[t].val() == lincomb_val(
                        vectors@,
                        scalars@,
                        j + 1 as int,
                        t,
                    ),
                forall|t: int|
                    i <= t < width ==> #[trigger] out@[t].val() == lincomb_val(
                        vectors@,
                        scalars@,
                        j as int,
                        t,
                    ),
            decreases width - i,
        {
            let tmp = fr_mul(&v[i], s);
            let upd = fr_add(&out[i], &tmp);
            out[i] = upd;
            i += 1;
        }
        j += 1;
    }
    out
}

/// Reads a field element from its canonical 32-byte encoding; rejects
/// any encoding of a value at or above the field order.
pub fn bytes_to_bls_field(bytes: &[u8; 32]) -> (r: Result<FieldElement, Error>)
    ensures
        r is Ok <==> le_bytes_val(bytes@) < r_mod(),
        r matches Ok(x) ==> x.val() == le_bytes_val(bytes@),
{
    if fr_bytes_canonical(bytes) {
        Ok(FieldElement { bytes: *bytes })
    } else {
        Err(Error::ParseError)
    }
}

/// Writes the canonical 32-byte encoding of a field element.
pub fn bytes_from_bls_field(fr: &FieldElement) -> (r: [u8; 32])
    ensures
        le_bytes_val(r@) == fr.val(),
        le_bytes_val(r@) < r_mod(),
{
    proof {
        use_type_invariant(fr);
    }
    fr.bytes
}

/// Reading back the written encoding of an element restores it: the
/// encoding determines the element and the element the encoding.
pub proof fn lemma_bytes_round_trip(x: FieldElement, y: FieldElement)
    requires
        y.val() == x.val(),
    ensures
        y == x,
{
    lemma_le_bytes_val_injective(x.bytes@, y.bytes@);
    assert(x.bytes@ =~= y.bytes@);
    vstd::array::axiom_array_ext_equal(x.bytes, y.bytes);
}

} // verus!
