//! Radix-2 transforms over a power-of-two domain of roots of unity, for
//! field elements and for curve points, with the bit-reversal permutation
//! that aligns butterfly output order with natural order.

use vstd::prelude::*;
use vstd::arithmetic::power2::*;
use vstd::arithmetic::div_mod::{lemma_add_mod_noop, lemma_sub_mod_noop, lemma_mod_multiples_vanish};
use crate::Error;
use crate::field::{
    FieldElement, fadd, fsub, fmul, pow_f, inv_f, r_mod, compute_powers, lemma_pow_f_even,
    lemma_pow_f_succ, fr_root_of_unity,
};
use crate::curve::{G1Point, g1_add_pts, g1_mul_pt, g1_encs, fr_vals, g1_identity_bytes};

verus! {

/// Whether a length is a power of two.
pub open spec fn is_pow2(n: nat) -> bool
    decreases n,
{
    if n == 0 {
        false
    } else if n == 1 {
        true
    } else {
        n % 2 == 0 && is_pow2(n / 2)
    }
}

/// The binary logarithm, rounded down.
pub open spec fn log2(n: nat) -> nat
    decreases n,
{
    if n <= 1 {
        0
    } else {
        1 + log2(n / 2)
    }
}

/// The index read by reversing the low `bits` binary digits.
pub open spec fn bitrev(i: nat, bits: nat) -> nat
    decreases bits,
{
    if bits == 0 {
        0
    } else {
        (i % 2) * pow2((bits - 1) as nat) + bitrev(i / 2, (bits - 1) as nat)
    }
}

/// A sequence permuted by bit-reversal of its indices.
pub open spec fn rbo_seq<A>(s: Seq<A>) -> Seq<A> {
    Seq::new(s.len(), |i: int| s[bitrev(i as nat, log2(s.len())) as int])
}

/// The elements at even indices.
pub open spec fn evens<A>(s: Seq<A>) -> Seq<A> {
    Seq::new(s.len() / 2, |i: int| s[2 * i])
}

/// The elements at odd indices.
pub open spec fn odds<A>(s: Seq<A>) -> Seq<A> {
    Seq::new(s.len() / 2, |i: int| s[2 * i + 1])
}

/// The radix-2 transform of a power-of-two-length sequence of residues at
/// the powers of `w`: the two half-size transforms recombined by the
/// butterfly `e[k] +/- w^k * o[k]`.
pub open spec fn fft_spec(v: Seq<nat>, w: nat) -> Seq<nat>
    decreases v.len(),
{
    if v.len() <= 1 {
        v
    } else {
        let h = (v.len() / 2) as int;
        let e = fft_spec(evens(v), fmul(w, w));
        let o = fft_spec(odds(v), fmul(w, w));
        Seq::new(
            v.len(),
            |i: int|
                if i < h {
                    fadd(e[i], fmul(pow_f(w, i as nat), o[i]))
                } else {
                    fsub(e[i - h], fmul(pow_f(w, (i - h) as nat), o[i - h]))
                },
        )
    }
}

/// The same transform over curve points, with point addition for field
/// addition and scalar multiplication by `w^k` (negated via `r - w^k` for
/// the second butterfly half) for field multiplication.
pub open spec fn fft_g1_spec(v: Seq<Seq<u8>>, w: nat) -> Seq<Seq<u8>>
    decreases v.len(),
{
    if v.len() <= 1 {
        v
    } else {
        let h = (v.len() / 2) as int;
        let e = fft_g1_spec(evens(v), fmul(w, w));
        let o = fft_g1_spec(odds(v), fmul(w, w));
        Seq::new(
            v.len(),
            |i: int|
                if i < h {
                    g1_add_pts(e[i], g1_mul_pt(o[i], pow_f(w, i as nat)))
                } else {
                    g1_add_pts(e[i - h], g1_mul_pt(o[i - h], fsub(0, pow_f(w, (i - h) as nat))))
                },
        )
    }
}

/// Reverses the low `bits` binary digits of an index.
pub fn bit_reverse(i: usize, bits: usize) -> (r: usize)
    requires
        (i as nat) < pow2(bits as nat),
        pow2(bits as nat) <= usize::MAX,
    ensures
        r as nat == bitrev(i as nat, bits as nat),
        (r as nat) < pow2(bits as nat),
    decreases bits,
{
    let mut x = i;
    let mut r: usize = 0;
    let mut b: usize = 0;
    proof {
        lemma_pow2_pos(0);
        lemma_bitrev_bound(i as nat, bits as nat);
    }
    while b < bits
        invariant
            b <= bits,
            pow2(bits as nat) <= usize::MAX,
            (r as nat) < pow2(b as nat),
            bitrev(i as nat, bits as nat) == (r as nat) * pow2((bits - b) as nat) + bitrev(
                x as nat,
                (bits - b) as nat,
            ),
            bitrev(x as nat, (bits - b) as nat) < pow2((bits - b) as nat),
        decreases bits - b,
    {
        proof {
            lemma_pow2_adds(b as nat, 1);
            lemma_pow2_adds((bits - b - 1) as nat, 1);
            lemma2_to64();
            lemma_pow2_pos((bits - b - 1) as nat);
            lemma_pow2_le((b + 1) as nat, bits as nat);
            assert(bitrev(x as nat, (bits - b) as nat) == ((x as nat) % 2) * pow2(
                (bits - b - 1) as nat,
            ) + bitrev((x as nat) / 2, (bits - b - 1) as nat));
            lemma_bitrev_bound((x as nat) / 2, (bits - b - 1) as nat);
            let rr = r as nat;
            let xm = (x as nat) % 2;
            let p1 = pow2((bits - b - 1) as nat);
            assert((rr * 2 + xm) * p1 == rr * (2 * p1) + xm * p1) by (nonlinear_arith);
            assert(rr * (2 * p1) == rr * pow2((bits - b) as nat));
        }
        r = r * 2 + x % 2;
        x = x / 2;
        b += 1;
    }
    proof {
        lemma2_to64();
        assert(bitrev(x as nat, (bits - b) as nat) == 0);
        assert(pow2((bits - b) as nat) == 1);
    }
    r
}

/// `pow2` never shrinks as its exponent grows.
proof fn lemma_pow2_le(a: nat, b: nat)
    requires
        a <= b,
    ensures
        pow2(a) <= pow2(b),
{
    if a < b {
        lemma_pow2_strictly_increases(a, b);
    }
}

/// On a power of two, `pow2` undoes `log2`.
pub proof fn lemma_pow2_log2(n: nat)
    requires
        is_pow2(n),
    ensures
        pow2(log2(n)) == n,
    decreases n,
{
    if n == 1 {
        lemma2_to64();
    } else {
        lemma_pow2_log2(n / 2);
        assert(log2(n) == 1 + log2(n / 2));
        lemma_pow2_adds(1, log2(n / 2));
        lemma2_to64();
    }
}

/// A reversed index stays inside the same power-of-two range.
pub proof fn lemma_bitrev_bound(i: nat, bits: nat)
    ensures
        bitrev(i, bits) < pow2(bits),
    decreases bits,
{
    if bits == 0 {
        lemma_pow2_pos(0);
    } else {
        lemma_bitrev_bound(i / 2, (bits - 1) as nat);
        lemma_pow2_adds((bits - 1) as nat, 1);
        lemma2_to64();
        if i % 2 == 0 {
            assert((i % 2) * pow2((bits - 1) as nat) == 0);
        } else {
            assert((i % 2) * pow2((bits - 1) as nat) == pow2((bits - 1) as nat));
        }
    }
}

/// Permutes a power-of-two-length sequence in place, moving the element
/// at each index to the index with reversed binary digits.
pub fn reverse_bit_order<T: Copy>(values: &mut Vec<T>)
    requires
        is_pow2(old(values)@.len()),
    ensures
        final(values)@.len() == old(values)@.len(),
        forall|i: int|
            0 <= i < old(values)@.len() ==> final(values)@[i] == old(values)@[bitrev(
                i as nat,
                log2(old(values)@.len()),
            ) as int],
        final(values)@ == rbo_seq(old(values)@),
{
    let n = values.len();
    let mut bits: usize = 0;
    let mut m: usize = n;
    proof {
        lemma2_to64();
    }
    while m > 1
        invariant
            is_pow2(m as nat),
            n as nat == m as nat * pow2(bits as nat),
            pow2(bits as nat) <= n as nat,
            bits <= 64,
            bits as nat + log2(m as nat) == log2(n as nat),
        decreases m,
    {
        proof {
            lemma_pow2_adds(bits as nat, 1);
            lemma2_to64();
            let mh = (m as nat) / 2;
            assert(m as nat == 2 * mh);
            assert(mh * (2 * pow2(bits as nat)) == (2 * mh) * pow2(bits as nat))
                by (nonlinear_arith);
            assert(mh >= 1);
            assert(mh * pow2((bits + 1) as nat) >= 1 * pow2((bits + 1) as nat))
                by (nonlinear_arith)
                requires mh >= 1,
            ;
            if bits == 64 {
                assert(pow2(64) > usize::MAX);
                assert(false);
            }
        }
        m = m / 2;
        bits += 1;
    }
    proof {
        assert(m == 1);
        assert(n as nat == pow2(bits as nat));
    }
    let mut out: Vec<T> = Vec::new();
    let mut i: usize = 0;
    while i < n
        invariant
            n == values@.len(),
            n as nat == pow2(bits as nat),
            bits as nat == log2(n as nat),
            i <= n,
            out@.len() == i,
            forall|j: int|
                0 <= j < i ==> out@[j] == values@[bitrev(j as nat, bits as nat) as int],
        decreases n - i,
    {
        let src = bit_reverse(i, bits);
        out.push(values[src]);
        i += 1;
    }
    *values = out;
    proof {
        assert(values@ =~= rbo_seq(old(values)@));
    }
}

/// The precomputed power-of-two domain: its width, a primitive root of
/// unity of that order, the root's inverse, and the ordered powers of the
/// root.  Immutable once built.
pub struct FFTSettings {
    max_width: usize,
    root: FieldElement,
    inv_root: FieldElement,
    roots: Vec<FieldElement>,
}

impl FFTSettings {
    /// The domain width.
    pub closed spec fn width(&self) -> nat {
        self.max_width as nat
    }

    /// The value of the domain's root of unity.
    pub closed spec fn root_val(&self) -> nat {
        self.root.val()
    }

    /// The value of the root's inverse.
    pub closed spec fn inv_root_val(&self) -> nat {
        self.inv_root.val()
    }

    /// The values of the domain: the successive powers of the root.
    pub closed spec fn roots_vals(&self) -> Seq<nat> {
        fr_vals(self.roots@)
    }

    #[verifier::type_invariant]
    pub(crate) open spec fn wf(self) -> bool {
        &&& is_pow2(self.width())
        &&& self.width() >= 1
        &&& self.roots_vals().len() == self.width()
        &&& forall|i: int|
            0 <= i < self.roots_vals().len() ==> #[trigger] self.roots_vals()[i] == pow_f(
                self.root_val(),
                i as nat,
            )
        &&& fmul(self.root_val(), self.inv_root_val()) == 1
        &&& pow_f(self.root_val(), self.width()) == 1
        &&& self.width() > 1 ==> pow_f(self.root_val(), self.width() / 2) != 1
    }

    /// The width, republishing what always holds of a built domain.
    pub fn max_width(&self) -> (r: usize)
        ensures
            r as nat == self.width(),
            is_pow2(self.width()),
            self.width() >= 1,
            self.roots_vals().len() == self.width(),
            forall|i: int|
                0 <= i < self.width() ==> #[trigger] self.roots_vals()[i] == pow_f(
                    self.root_val(),
                    i as nat,
                ),
            fmul(self.root_val(), self.inv_root_val()) == 1,
            pow_f(self.root_val(), self.width()) == 1,
            self.width() > 1 ==> pow_f(self.root_val(), self.width() / 2) != 1,
    {
        proof {
            use_type_invariant(self);
        }
        self.max_width
    }

    /// The domain, as elements, in natural (power) order.
    pub fn roots(&self) -> (r: &Vec<FieldElement>)
        ensures
            fr_vals(r@) == self.roots_vals(),
            r@.len() == self.width(),
    {
        proof {
            use_type_invariant(self);
        }
        &self.roots
    }

    /// Builds the domain of width `2^scale`; a scale beyond the supported
    /// table of 31 doublings fails.
    pub fn new(scale: usize) -> (r: Result<FFTSettings, Error>)
        ensures
            r is Ok <==> scale <= 31,
            r matches Err(e) ==> e == Error::DomainOverflow,
            r matches Ok(fs) ==> fs.width() == pow2(scale as nat),
    {
        if scale > 31 {
            return Err(Error::DomainOverflow);
        }
        let mut width: usize = 1;
        let mut j: usize = 0;
        proof {
            lemma2_to64();
        }
        while j < scale
            invariant
                j <= scale <= 31,
                width as nat == pow2(j as nat),
            decreases scale - j,
        {
            proof {
                lemma_pow2_adds(j as nat, 1);
                lemma_pow2_le((j + 1) as nat, 31);
                lemma2_to64();
            }
            width = width * 2;
            j += 1;
        }
        let mut w = fr_root_of_unity();
        let mut k: usize = 0;
        while k < 32 - scale
            invariant
                scale <= 31,
                k <= 32 - scale,
                pow_f(w.val(), pow2((32 - k) as nat)) == 1,
                32 - k >= 1 ==> pow_f(w.val(), pow2((32 - k - 1) as nat)) != 1,
            decreases 32 - scale - k,
        {
            let ghost w0 = w.val();
            w = w.mul(&w);
            proof {
                lemma_pow2_adds((31 - k) as nat, 1);
                lemma_pow2_adds((30 - k) as nat, 1);
                lemma2_to64();
                lemma_pow_f_even(w0, pow2((31 - k) as nat));
                if 31 - k >= 1 {
                    lemma_pow_f_even(w0, pow2((30 - k) as nat));
                }
                assert(fmul(w0, w0) == w.val());
            }
            k += 1;
        }
        proof {
            assert(32 - (32 - scale) == scale);
            if width > 1 {
                assert(scale >= 1) by {
                    if scale == 0 {
                        lemma2_to64();
                    }
                }
                lemma_pow2_adds((scale - 1) as nat, 1);
                lemma2_to64();
                assert((width / 2) as nat == pow2((scale - 1) as nat));
            }
        }
        let roots = compute_powers(&w, width);
        let one = FieldElement::one();
        let inv_root = match one.div(&w) {
            Ok(q) => q,
            Err(_) => {
                proof {
                    lemma_pow2_pos(scale as nat);
                    assert(pow_f(0, pow2(scale as nat)) != 1) by {
                        lemma_pow_f_zero_base(pow2(scale as nat));
                    }
                }
                return Err(Error::DomainOverflow);
            },
        };
        proof {
            lemma_is_pow2_pow2(scale as nat);
            lemma_pow2_pos(scale as nat);
            assert(is_pow2(width as nat));
            assert(width >= 1);
            assert(roots@.len() == width);
            assert(forall|i: int|
                0 <= i < roots@.len() ==> (#[trigger] roots@[i]).val() == pow_f(
                    w.val(),
                    i as nat,
                ));
            assert(fmul(w.val(), inv_root.val()) == 1);
            assert(pow_f(w.val(), width as nat) == 1);
            assert(width > 1 ==> pow_f(w.val(), (width / 2) as nat) != 1);
        }
        Ok(FFTSettings { max_width: width, root: w, inv_root, roots })
    }
}

/// A sequence of residues zero-padded to a width.
pub open spec fn pad_vals(s: Seq<nat>, n: nat) -> Seq<nat> {
    s + Seq::new((n - s.len()) as nat, |i: int| 0nat)
}

/// A sequence of point encodings identity-padded to a width.
pub open spec fn pad_g1(s: Seq<Seq<u8>>, n: nat) -> Seq<Seq<u8>> {
    s + Seq::new((n - s.len()) as nat, |i: int| g1_identity_bytes())
}

/// The recursive butterfly over field elements.
fn fft_rec(v: &Vec<FieldElement>, w: &FieldElement) -> (r: Vec<FieldElement>)
    requires
        is_pow2(v@.len()),
    ensures
        r@.len() == v@.len(),
        fr_vals(r@) == fft_spec(fr_vals(v@), w.val()),
    decreases v@.len(),
{
    let n = v.len();
    if n == 1 {
        let mut out: Vec<FieldElement> = Vec::new();
        out.push(v[0]);
        proof {
            assert(fr_vals(out@) =~= fft_spec(fr_vals(v@), w.val()));
        }
        return out;
    }
    let half = n / 2;
    proof {
        assert(n % 2 == 0 && is_pow2((n / 2) as nat));
    }
    let mut ev: Vec<FieldElement> = Vec::new();
    let mut od: Vec<FieldElement> = Vec::new();
    let mut i: usize = 0;
    while i < half
        invariant
            n == v@.len(),
            half == n / 2,
            n % 2 == 0,
            i <= half,
            ev@.len() == i,
            od@.len() == i,
            forall|j: int| 0 <= j < i ==> #[trigger] ev@[j] == v@[2 * j],
            forall|j: int| 0 <= j < i ==> #[trigger] od@[j] == v@[2 * j + 1],
        decreases half - i,
    {
        ev.push(v[2 * i]);
        od.push(v[2 * i + 1]);
        i += 1;
    }
    proof {
        assert(fr_vals(ev@) =~= evens(fr_vals(v@)));
        assert(fr_vals(od@) =~= odds(fr_vals(v@)));
    }
    let w2 = w.mul(w);
    let e = fft_rec(&ev, &w2);
    let o = fft_rec(&od, &w2);
    let mut first: Vec<FieldElement> = Vec::new();
    let mut second: Vec<FieldElement> = Vec::new();
    let mut wk = FieldElement::one();
    let mut k: usize = 0;
    while k < half
        invariant
            half == e@.len(),
            half == o@.len(),
            k <= half,
            first@.len() == k,
            second@.len() == k,
            wk.val() == pow_f(w.val(), k as nat),
            forall|j: int|
                0 <= j < k ==> (#[trigger] first@[j]).val() == fadd(
                    e@[j].val(),
                    fmul(pow_f(w.val(), j as nat), o@[j].val()),
                ),
            forall|j: int|
                0 <= j < k ==> (#[trigger] second@[j]).val() == fsub(
                    e@[j].val(),
                    fmul(pow_f(w.val(), j as nat), o@[j].val()),
                ),
        decreases half - k,
    {
        let t = wk.mul(&o[k]);
        first.push(e[k].add(&t));
        second.push(e[k].sub(&t));
        wk = wk.mul(w);
        proof {
            lemma_pow_f_succ(w.val(), k as nat);
        }
        k += 1;
    }
    let ghost f0 = first@;
    let ghost s0 = second@;
    let mut out = first;
    let mut k2: usize = 0;
    while k2 < half
        invariant
            out@ =~= f0 + s0.subrange(0, k2 as int),
            second@ == s0,
            s0.len() == half,
            f0.len() == half,
            k2 <= half,
        decreases half - k2,
    {
        out.push(second[k2]);
        proof {
            assert(out@ =~= f0 + s0.subrange(0, (k2 + 1) as int));
        }
        k2 += 1;
    }
    proof {
        let vv = fr_vals(v@);
        let ww = w.val();
        let espec = fft_spec(evens(vv), fmul(ww, ww));
        let ospec = fft_spec(odds(vv), fmul(ww, ww));
        assert(fr_vals(e@) == espec);
        assert(fr_vals(o@) == ospec);
        let h = half as int;
        assert(out@ =~= f0 + s0);
        assert forall|idx: int| 0 <= idx < n implies fr_vals(out@)[idx] == fft_spec(vv, ww)[idx]
            by {
            if idx < h {
                assert(out@[idx] == f0[idx]);
                assert(f0[idx].val() == fadd(espec[idx], fmul(pow_f(ww, idx as nat), ospec[idx])));
            } else {
                assert(out@[idx] == s0[idx - h]);
                assert(s0[idx - h].val() == fsub(
                    espec[idx - h],
                    fmul(pow_f(ww, (idx - h) as nat), ospec[idx - h]),
                ));
            }
        }
        assert(fr_vals(out@) =~= fft_spec(vv, ww));
    }
    out
}

/// The recursive butterfly over curve points; the subtracting half of the
/// butterfly multiplies by the negated root power.
fn fft_g1_rec(v: &Vec<G1Point>, w: &FieldElement) -> (r: Vec<G1Point>)
    requires
        is_pow2(v@.len()),
    ensures
        r@.len() == v@.len(),
        g1_encs(r@) == fft_g1_spec(g1_encs(v@), w.val()),
    decreases v@.len(),
{
    let n = v.len();
    if n == 1 {
        let mut out: Vec<G1Point> = Vec::new();
        out.push(v[0]);
        proof {
            assert(g1_encs(out@) =~= fft_g1_spec(g1_encs(v@), w.val()));
        }
        return out;
    }
    let half = n / 2;
    proof {
        assert(n % 2 == 0 && is_pow2((n / 2) as nat));
    }
    let mut ev: Vec<G1Point> = Vec::new();
    let mut od: Vec<G1Point> = Vec::new();
    let mut i: usize = 0;
    while i < half
        invariant
            n == v@.len(),
            half == n / 2,
            n % 2 == 0,
            i <= half,
            ev@.len() == i,
            od@.len() == i,
            forall|j: int| 0 <= j < i ==> #[trigger] ev@[j] == v@[2 * j],
            forall|j: int| 0 <= j < i ==> #[trigger] od@[j] == v@[2 * j + 1],
        decreases half - i,
    {
        ev.push(v[2 * i]);
        od.push(v[2 * i + 1]);
        i += 1;
    }
    proof {
        assert(g1_encs(ev@) =~= evens(g1_encs(v@)));
        assert(g1_encs(od@) =~= odds(g1_encs(v@)));
    }
    let w2 = w.mul(w);
    let e = fft_g1_rec(&ev, &w2);
    let o = fft_g1_rec(&od, &w2);
    let mut first: Vec<G1Point> = Vec::new();
    let mut second: Vec<G1Point> = Vec::new();
    let zero = FieldElement::zero();
    let mut wk = FieldElement::one();
    let mut k: usize = 0;
    while k < half
        invariant
            half == e@.len(),
            half == o@.len(),
            k <= half,
            first@.len() == k,
            second@.len() == k,
            zero.val() == 0,
            wk.val() == pow_f(w.val(), k as nat),
            forall|j: int|
                0 <= j < k ==> (#[trigger] first@[j])@ == g1_add_pts(
                    e@[j]@,
                    g1_mul_pt(o@[j]@, pow_f(w.val(), j as nat)),
                ),
            forall|j: int|
                0 <= j < k ==> (#[trigger] second@[j])@ == g1_add_pts(
                    e@[j]@,
                    g1_mul_pt(o@[j]@, fsub(0, pow_f(w.val(), j as nat))),
                ),
        decreases half - k,
    {
        let t = o[k].scalar_mul(&wk);
        let nwk = zero.sub(&wk);
        let t2 = o[k].scalar_mul(&nwk);
        first.push(e[k].add(&t));
        second.push(e[k].add(&t2));
        wk = wk.mul(w);
        proof {
            lemma_pow_f_succ(w.val(), k as nat);
        }
        k += 1;
    }
    let ghost f0 = first@;
    let ghost s0 = second@;
    let mut out = first;
    let mut k2: usize = 0;
    while k2 < half
        invariant
            out@ =~= f0 + s0.subrange(0, k2 as int),
            second@ == s0,
            s0.len() == half,
            f0.len() == half,
            k2 <= half,
        decreases half - k2,
    {
        out.push(second[k2]);
        proof {
            assert(out@ =~= f0 + s0.subrange(0, (k2 + 1) as int));
        }
        k2 += 1;
    }
    proof {
        let vv = g1_encs(v@);
        let ww = w.val();
        let espec = fft_g1_spec(evens(vv), fmul(ww, ww));
        let ospec = fft_g1_spec(odds(vv), fmul(ww, ww));
        assert(g1_encs(e@) == espec);
        assert(g1_encs(o@) == ospec);
        let h = half as int;
        assert(out@ =~= f0 + s0);
        assert forall|idx: int| 0 <= idx < n implies g1_encs(out@)[idx] == fft_g1_spec(vv, ww)[idx]
            by {
            if idx < h {
                assert(out@[idx] == f0[idx]);
                assert(f0[idx]@ == g1_add_pts(
                    espec[idx],
                    g1_mul_pt(ospec[idx], pow_f(ww, idx as nat)),
                ));
            } else {
                assert(out@[idx] == s0[idx - h]);
                assert(s0[idx - h]@ == g1_add_pts(
                    espec[idx - h],
                    g1_mul_pt(ospec[idx - h], fsub(0, pow_f(ww, (idx - h) as nat))),
                ));
            }
        }
        assert(g1_encs(out@) =~= fft_g1_spec(vv, ww));
    }
    out
}

impl FFTSettings {
    /// The forward or inverse transform over field elements: inputs no
    /// longer than the width are zero-padded; the inverse applies the
    /// `1/width` scaling, so that it exactly undoes the forward map.
    pub fn fft_fr(&self, values: &Vec<FieldElement>, inverse: bool) -> (r: Result<
        Vec<FieldElement>,
        Error,
    >)
        ensures
            r is Ok <==> values@.len() <= self.width(),
            r matches Err(e) ==> e == Error::DomainOverflow,
            r matches Ok(out) ==> {
                &&& out@.len() == self.width()
                &&& !inverse ==> fr_vals(out@) == fft_spec(
                    pad_vals(fr_vals(values@), self.width()),
                    self.root_val(),
                )
                &&& inverse ==> (forall|i: int|
                    0 <= i < out@.len() ==> (#[trigger] out@[i]).val() == fmul(
                        inv_f(self.width()),
                        fft_spec(pad_vals(fr_vals(values@), self.width()), self.inv_root_val())[i],
                    ))
            },
    {
        proof {
            use_type_invariant(self);
        }
        let width = self.max_width;
        if values.len() > width {
            return Err(Error::DomainOverflow);
        }
        let mut padded: Vec<FieldElement> = Vec::new();
        let mut i: usize = 0;
        while i < values.len()
            invariant
                i <= values@.len(),
                padded@.len() == i,
                forall|j: int| 0 <= j < i ==> #[trigger] padded@[j] == values@[j],
            decreases values@.len() - i,
        {
            padded.push(values[i]);
            i += 1;
        }
        let z = FieldElement::zero();
        while padded.len() < width
            invariant
                values@.len() <= padded@.len() <= width,
                z.val() == 0,
                forall|j: int| 0 <= j < values@.len() ==> #[trigger] padded@[j] == values@[j],
                forall|j: int|
                    values@.len() <= j < padded@.len() ==> (#[trigger] padded@[j]).val() == 0,
            decreases width - padded@.len(),
        {
            padded.push(z);
        }
        proof {
            assert(fr_vals(padded@) =~= pad_vals(fr_vals(values@), self.width()));
        }
        if !inverse {
            let out = fft_rec(&padded, &self.root);
            Ok(out)
        } else {
            let raw = fft_rec(&padded, &self.inv_root);
            let n_el = FieldElement::from_u64(width as u64);
            let n_inv = match FieldElement::one().div(&n_el) {
                Ok(q) => q,
                Err(_) => {
                    return Err(Error::DomainOverflow);
                },
            };
            proof {
                let wn = self.width();
                assert(fmul(n_inv.val(), wn) == 1);
                assert(fmul(wn, n_inv.val()) == 1);
                assert(n_inv.val() < r_mod());
                assert(inv_f(wn) == n_inv.val()) by {
                    assert(inv_f(wn) < r_mod() && fmul(wn, inv_f(wn)) == 1) by {
                        assert(n_inv.val() < r_mod() && fmul(wn, n_inv.val()) == 1);
                    }
                    crate::field::lemma_inv_unique(wn, inv_f(wn), n_inv.val());
                }
            }
            let mut out: Vec<FieldElement> = Vec::new();
            let mut k: usize = 0;
            while k < raw.len()
                invariant
                    raw@.len() == self.width(),
                    fr_vals(raw@) == fft_spec(
                        pad_vals(fr_vals(values@), self.width()),
                        self.inv_root_val(),
                    ),
                    n_inv.val() == inv_f(self.width()),
                    k <= raw@.len(),
                    out@.len() == k,
                    forall|j: int|
                        0 <= j < k ==> (#[trigger] out@[j]).val() == fmul(
                            inv_f(self.width()),
                            fft_spec(
                                pad_vals(fr_vals(values@), self.width()),
                                self.inv_root_val(),
                            )[j],
                        ),
                decreases raw@.len() - k,
            {
                out.push(n_inv.mul(&raw[k]));
                k += 1;
            }
            Ok(out)
        }
    }

    /// The forward or inverse transform over curve points, identical in
    /// structure to the field transform with point addition for field
    /// addition and root-power scalar multiplication for field
    /// multiplication.
    pub fn fft_g1(&self, values: &Vec<G1Point>, inverse: bool) -> (r: Result<Vec<G1Point>, Error>)
        ensures
            r is Ok <==> values@.len() <= self.width(),
            r matches Err(e) ==> e == Error::DomainOverflow,
            r matches Ok(out) ==> {
                &&& out@.len() == self.width()
                &&& !inverse ==> g1_encs(out@) == fft_g1_spec(
                    pad_g1(g1_encs(values@), self.width()),
                    self.root_val(),
                )
                &&& inverse ==> (forall|i: int|
                    0 <= i < out@.len() ==> (#[trigger] out@[i])@ == g1_mul_pt(
                        fft_g1_spec(pad_g1(g1_encs(values@), self.width()), self.inv_root_val())[i],
                        inv_f(self.width()),
                    ))
            },
    {
        proof {
            use_type_invariant(self);
        }
        let width = self.max_width;
        if values.len() > width {
            return Err(Error::DomainOverflow);
        }
        let mut padded: Vec<G1Point> = Vec::new();
        let mut i: usize = 0;
        while i < values.len()
            invariant
                i <= values@.len(),
                padded@.len() == i,
                forall|j: int| 0 <= j < i ==> #[trigger] padded@[j] == values@[j],
            decreases values@.len() - i,
        {
            padded.push(values[i]);
            i += 1;
        }
        let idp = G1Point::identity();
        while padded.len() < width
            invariant
                values@.len() <= padded@.len() <= width,
                idp@ == g1_identity_bytes(),
                forall|j: int| 0 <= j < values@.len() ==> #[trigger] padded@[j] == values@[j],
                forall|j: int|
                    values@.len() <= j < padded@.len() ==> (#[trigger] padded@[j])@
                        == g1_identity_bytes(),
            decreases width - padded@.len(),
        {
            padded.push(idp);
        }
        proof {
            assert(g1_encs(padded@) =~= pad_g1(g1_encs(values@), self.width()));
        }
        if !inverse {
            let out = fft_g1_rec(&padded, &self.root);
            Ok(out)
        } else {
            let raw = fft_g1_rec(&padded, &self.inv_root);
            let n_el = FieldElement::from_u64(width as u64);
            let n_inv = match FieldElement::one().div(&n_el) {
                Ok(q) => q,
                Err(_) => {
                    return Err(Error::DomainOverflow);
                },
            };
            proof {
                let wn = self.width();
                assert(inv_f(wn) == n_inv.val()) by {
                    assert(inv_f(wn) < r_mod() && fmul(wn, inv_f(wn)) == 1) by {
                        assert(n_inv.val() < r_mod() && fmul(wn, n_inv.val()) == 1);
                    }
                    crate::field::lemma_inv_unique(wn, inv_f(wn), n_inv.val());
                }
            }
            let mut out: Vec<G1Point> = Vec::new();
            let mut k: usize = 0;
            while k < raw.len()
                invariant
                    raw@.len() == self.width(),
                    g1_encs(raw@) == fft_g1_spec(
                        pad_g1(g1_encs(values@), self.width()),
                        self.inv_root_val(),
                    ),
                    n_inv.val() == inv_f(self.width()),
                    k <= raw@.len(),
                    out@.len() == k,
                    forall|j: int|
                        0 <= j < k ==> (#[trigger] out@[j])@ == g1_mul_pt(
                            fft_g1_spec(
                                pad_g1(g1_encs(values@), self.width()),
                                self.inv_root_val(),
                            )[j],
                            inv_f(self.width()),
                        ),
                decreases raw@.len() - k,
            {
                out.push(raw[k].scalar_mul(&n_inv));
                k += 1;
            }
            Ok(out)
        }
    }
}

/// Undoing the transform on a one-point domain restores the input: on
/// the narrowest domain both transforms are the identity and the width
/// scaling is by one.
pub proof fn lemma_fft_round_trip_singleton(v: Seq<nat>, w: nat, wi: nat)
    requires
        v.len() == 1,
        v[0] < r_mod(),
    ensures
        fmul(inv_f(1), fft_spec(fft_spec(v, w), wi)[0]) == v[0],
{
    assert(fft_spec(fft_spec(v, w), wi) == v);
    assert(fmul(1nat, 1nat) == 1) by {
        vstd::arithmetic::div_mod::lemma_small_mod(1, r_mod());
    }
    assert(inv_f(1) == 1) by {
        assert(1nat < r_mod() && fmul(1nat, 1nat) == 1);
        crate::field::lemma_inv_unique(1, inv_f(1), 1);
    }
    crate::field::lemma_fmul_one(v[0]);
}

/// Undoing the transform restores the input on a two-point domain as
/// well: there the butterfly uses only the zeroth root power, so the
/// round trip reduces to `(a + b) + (a - b) == 2a` and the `1/2`
/// scaling, exact in the field.
#[verifier::rlimit(60)]
pub proof fn lemma_fft_round_trip_width_two(a: nat, b: nat, w: nat, wi: nat)
    requires
        a < r_mod(),
        b < r_mod(),
    ensures
        fmul(inv_f(2), fft_spec(fft_spec(seq![a, b], w), wi)[0]) == a,
        fmul(inv_f(2), fft_spec(fft_spec(seq![a, b], w), wi)[1]) == b,
{
    let v = seq![a, b];
    crate::field::lemma_fmul_one(b);
    lemma_fft_spec_two(a, b, w);
    assert(fft_spec(v, w) =~= seq![fadd(a, b), fsub(a, b)]);
    let s = fadd(a, b);
    let d = fsub(a, b);
    assert(s < r_mod() && d < r_mod());
    crate::field::lemma_fmul_one(d);
    lemma_fft_spec_two(s, d, wi);
    assert(fft_spec(seq![s, d], wi) =~= seq![fadd(s, d), fsub(s, d)]);
    assert(fft_spec(fft_spec(v, w), wi) == fft_spec(seq![s, d], wi));
    let r = r_mod() as int;
    assert(fadd(s, d) == (2 * a) % r_mod()) by {
        lemma_add_mod_noop((a + b) as int, (a + r_mod() - b) as int, r);
        lemma_mod_multiples_vanish(1, (2 * a) as int, r);
    }
    assert(fsub(s, d) == (2 * b) % r_mod()) by {
        lemma_sub_mod_noop((a + b + r_mod()) as int, (a + r_mod() - b) as int, r);
        lemma_add_mod_noop((a + b) as int, r_mod() as int, r);
        lemma_mod_multiples_vanish(1, (a + b) as int, r);
        lemma_mod_multiples_vanish(1, (2 * b) as int, r);
    }
    lemma_half_doubles(a);
    lemma_half_doubles(b);
}

/// The transform of a two-element sequence spelled out: one butterfly
/// with the zeroth root power.
proof fn lemma_fft_spec_two(x: nat, y: nat, w: nat)
    ensures
        fft_spec(seq![x, y], w) =~= seq![fadd(x, fmul(1, y)), fsub(x, fmul(1, y))],
{
    let v = seq![x, y];
    assert(v.len() == 2);
    let e = fft_spec(evens(v), fmul(w, w));
    let o = fft_spec(odds(v), fmul(w, w));
    assert(evens(v) =~= seq![x]);
    assert(odds(v) =~= seq![y]);
    assert(fft_spec(seq![x], fmul(w, w)) == seq![x]);
    assert(fft_spec(seq![y], fmul(w, w)) == seq![y]);
    assert(e == seq![x]);
    assert(o == seq![y]);
    assert(pow_f(w, 0) == 1);
    assert(e[0] == x && o[0] == y);
    assert(fft_spec(v, w).len() == 2);
    assert(fft_spec(v, w)[0] == fadd(x, fmul(1, y)));
    assert(fft_spec(v, w)[1] == fsub(x, fmul(1, y)));
}

/// Multiplying a doubled canonical residue by the inverse of two gives
/// the residue back.
proof fn lemma_half_doubles(a: nat)
    requires
        a < r_mod(),
    ensures
        fmul(inv_f(2), (2 * a) % r_mod()) == a,
{
    let h: nat = 26217937587563095239723870254092982918845276250263818911301829349969290592257nat;
    assert(2 * h == r_mod() + 1);
    assert(fmul(2, h) == 1) by {
        lemma_mod_multiples_vanish(1, 1, r_mod() as int);
        vstd::arithmetic::div_mod::lemma_small_mod(1, r_mod());
    }
    let i2 = inv_f(2);
    assert(i2 < r_mod() && fmul(2, i2) == 1) by {
        assert(h < r_mod() && fmul(2, h) == 1);
    }
    assert(fmul(i2, (2 * a) % r_mod()) == fmul(i2, fmul(2, a))) by {
        vstd::arithmetic::div_mod::lemma_mul_mod_noop_general(i2 as int, (2 * a) as int, r_mod() as int);
        vstd::arithmetic::div_mod::lemma_small_mod(a, r_mod());
        vstd::arithmetic::div_mod::lemma_small_mod(i2, r_mod());
        assert(fmul(2, a) == (2 * a) % r_mod());
    }
    crate::field::lemma_fmul_assoc(i2, 2, a);
    crate::field::lemma_fmul_one(a);
    assert(fmul(fmul(i2, 2), a) == fmul(1, a)) by {
        vstd::arithmetic::mul::lemma_mul_is_commutative(i2 as int, 2);
    }
}

/// Zero to any positive power is zero, not one.
proof fn lemma_pow_f_zero_base(e: nat)
    requires
        e >= 1,
    ensures
        pow_f(0, e) == 0,
{
    assert(pow_f(0, e) == fmul(0, pow_f(0, (e - 1) as nat)));
    assert(0 * pow_f(0, (e - 1) as nat) == 0);
    vstd::arithmetic::div_mod::lemma_small_mod(0, r_mod());
}

/// Every power of two is a power of two in the recursive sense.
proof fn lemma_is_pow2_pow2(k: nat)
    ensures
        is_pow2(pow2(k)),
    decreases k,
{
    if k == 0 {
        lemma2_to64();
    } else {
        lemma_is_pow2_pow2((k - 1) as nat);
        lemma_pow2_adds((k - 1) as nat, 1);
        lemma2_to64();
        lemma_pow2_pos((k - 1) as nat);
    }
}

} // verus!
