//! Polynomials as ordered coefficient (or evaluation-form) sequences of
//! field elements, with bounds-checked access and direct evaluation.

use vstd::prelude::*;
use crate::field::{FieldElement, fadd, fmul};

verus! {

/// Direct evaluation of a coefficient sequence at a point, lowest
/// coefficient first.
pub open spec fn poly_eval_val(c: Seq<FieldElement>, x: nat) -> nat
    decreases c.len(),
{
    if c.len() == 0 {
        0
    } else {
        fadd(c.first().val(), fmul(x, poly_eval_val(c.drop_first(), x)))
    }
}

/// An ordered sequence of field elements, read as a polynomial in either
/// coefficient form or evaluation form over a domain.
pub struct Polynomial {
    /// The stored elements, lowest index first.
    pub coeffs: Vec<FieldElement>,
}

impl Polynomial {
    /// Wraps a sequence of elements.
    pub fn new(coeffs: Vec<FieldElement>) -> (r: Self)
        ensures
            r.coeffs@ == coeffs@,
    {
        Polynomial { coeffs }
    }

    /// The number of stored elements.
    pub fn len(&self) -> (r: usize)
        ensures
            r == self.coeffs@.len(),
    {
        self.coeffs.len()
    }

    /// Bounds-checked access to one element.
    pub fn get_coeff_at(&self, i: usize) -> (r: Option<FieldElement>)
        ensures
            r is Some <==> i < self.coeffs@.len(),
            r matches Some(c) ==> c == self.coeffs@[i as int],
    {
        if i < self.coeffs.len() {
            Some(self.coeffs[i])
        } else {
            None
        }
    }

    /// Evaluates the coefficient form directly at a point, by Horner's
    /// rule.
    pub fn eval(&self, x: &FieldElement) -> (r: FieldElement)
        ensures
            r.val() == poly_eval_val(self.coeffs@, x.val()),
    {
        let n = self.coeffs.len();
        let mut acc = FieldElement::zero();
        let mut i: usize = n;
        while i > 0
            invariant
                i <= n,
                n == self.coeffs@.len(),
                acc.val() == poly_eval_val(self.coeffs@.subrange(i as int, n as int), x.val()),
            decreases i,
        {
            i -= 1;
            acc = self.coeffs[i].add(&x.mul(&acc));
            proof {
                let tail = self.coeffs@.subrange(i as int, n as int);
                assert(tail.first() == self.coeffs@[i as int]);
                assert(tail.drop_first() =~= self.coeffs@.subrange(i + 1, n as int));
            }
        }
        proof {
            assert(self.coeffs@.subrange(0, n as int) =~= self.coeffs@);
        }
        acc
    }
}

} // verus!
