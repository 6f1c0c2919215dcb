//! The trusted-setup loader: parses the text format of counted hex lines
//! into curve points and builds the structured reference string, inverse
//! transformed into the Lagrange basis and bit-reversal permuted to align
//! with the domain ordering used everywhere else.

use vstd::prelude::*;
use vstd::arithmetic::power2::pow2;
use crate::Error;
use crate::curve::{G1Point, G2Point, g1_point_from_vec, g2_point_from_vec, g1_encs, g2_encs, g1_valid, g2_valid, g1_mul_pt};
use crate::fft::{FFTSettings, reverse_bit_order, rbo_seq, fft_g1_spec, pad_g1, is_pow2};
use crate::field::inv_f;

verus! {

/// The domain settings and the reference string: the G1 powers of the
/// secret in Lagrange basis and bit-reversed order, and the short G2
/// sequence.  Immutable once built; shared read-only by all callers.
pub struct KZGSettings {
    /// The FFT domain matching `secret_g1`'s length.
    pub fs: FFTSettings,
    /// The Lagrange-basis, bit-reversal-permuted G1 reference points.
    pub secret_g1: Vec<G1Point>,
    /// The G2 reference points: the generator and the generator times
    /// the secret.
    pub secret_g2: Vec<G2Point>,
    /// The encodings of the monomial-basis G1 points the setup declared,
    /// kept as a ghost record of what the reference string was built from.
    pub loaded_g1: Ghost<Seq<Seq<u8>>>,
}

/// Whether a byte is an ASCII hex digit.
pub open spec fn is_hex_digit(c: u8) -> bool {
    (48 <= c <= 57) || (97 <= c <= 102) || (65 <= c <= 70)
}

/// The value of an ASCII hex digit.
pub open spec fn hex_val(c: u8) -> nat {
    if 48 <= c <= 57 {
        (c - 48) as nat
    } else if 97 <= c <= 102 {
        (c - 87) as nat
    } else if 65 <= c <= 70 {
        (c - 55) as nat
    } else {
        0
    }
}

/// Whether every byte of a region is a hex digit.
pub open spec fn hex_region_ok(s: Seq<u8>) -> bool {
    forall|i: int| 0 <= i < s.len() ==> is_hex_digit(#[trigger] s[i])
}

/// The bytes encoded by a region of hex digit pairs.
pub open spec fn hex_bytes(s: Seq<u8>) -> Seq<u8> {
    Seq::new(s.len() / 2, |i: int| (hex_val(s[2 * i]) * 16 + hex_val(s[2 * i + 1])) as u8)
}

/// The value of an ASCII decimal digit string, most significant first.
pub open spec fn dec_val(s: Seq<u8>) -> nat
    decreases s.len(),
{
    if s.len() == 0 {
        0
    } else {
        (dec_val(s.drop_last()) * 10 + (s.last() - 48)) as nat
    }
}

/// Whether every byte of a region is a decimal digit.
pub open spec fn dec_region_ok(s: Seq<u8>) -> bool {
    forall|i: int| 0 <= i < s.len() ==> 48 <= #[trigger] s[i] <= 57
}

/// The index of the newline ending the line that starts at `pos`, or
/// the input's length when no newline follows.
pub open spec fn line_end(s: Seq<u8>, pos: int) -> int
    decreases s.len() - pos,
{
    if pos < 0 || pos >= s.len() {
        s.len() as int
    } else if s[pos] == 10 {
        pos
    } else {
        line_end(s, pos + 1)
    }
}

/// The position just past that line's newline.
pub open spec fn next_pos(s: Seq<u8>, pos: int) -> int {
    if line_end(s, pos) < s.len() {
        line_end(s, pos) + 1
    } else {
        line_end(s, pos)
    }
}

/// Whether the line starting at `pos` is a well-formed count: one to
/// nine decimal digits.
pub open spec fn count_line_ok(s: Seq<u8>, pos: int) -> bool {
    let e = line_end(s, pos);
    1 <= e - pos <= 9 && dec_region_ok(s.subrange(pos, e))
}

/// The count that line declares.
pub open spec fn count_line_val(s: Seq<u8>, pos: int) -> nat {
    dec_val(s.subrange(pos, line_end(s, pos)))
}

/// What is wrong with the G1 point line starting at `pos`, if anything:
/// any width but 96 hex digits is a parse error; valid hex that decodes
/// to no curve point is an invalid-point error.
pub open spec fn g1_line_err(s: Seq<u8>, pos: int) -> Option<Error> {
    let line = s.subrange(pos, line_end(s, pos));
    if line.len() != 96 || !hex_region_ok(line) {
        Some(Error::ParseError)
    } else if !g1_valid(hex_bytes(line)) {
        Some(Error::InvalidPoint)
    } else {
        None
    }
}

/// What is wrong with the G2 point line starting at `pos`, if anything.
pub open spec fn g2_line_err(s: Seq<u8>, pos: int) -> Option<Error> {
    let line = s.subrange(pos, line_end(s, pos));
    if line.len() != 192 || !hex_region_ok(line) {
        Some(Error::ParseError)
    } else if !g2_valid(hex_bytes(line)) {
        Some(Error::InvalidPoint)
    } else {
        None
    }
}

/// The first fault among `k` G1 point lines from `pos`, if any.
pub open spec fn g1_scan(s: Seq<u8>, pos: int, k: nat) -> Option<Error>
    decreases k,
{
    if k == 0 {
        None
    } else if g1_line_err(s, pos) is Some {
        g1_line_err(s, pos)
    } else {
        g1_scan(s, next_pos(s, pos), (k - 1) as nat)
    }
}

/// The first fault among `k` G2 point lines from `pos`, if any.
pub open spec fn g2_scan(s: Seq<u8>, pos: int, k: nat) -> Option<Error>
    decreases k,
{
    if k == 0 {
        None
    } else if g2_line_err(s, pos) is Some {
        g2_line_err(s, pos)
    } else {
        g2_scan(s, next_pos(s, pos), (k - 1) as nat)
    }
}

/// The bytes decoded from `k` G1 point lines from `pos`, in file order.
pub open spec fn g1_points_of(s: Seq<u8>, pos: int, k: nat) -> Seq<Seq<u8>>
    decreases k,
{
    if k == 0 {
        Seq::empty()
    } else {
        seq![hex_bytes(s.subrange(pos, line_end(s, pos)))] + g1_points_of(
            s,
            next_pos(s, pos),
            (k - 1) as nat,
        )
    }
}

/// The bytes decoded from `k` G2 point lines from `pos`, in file order.
pub open spec fn g2_points_of(s: Seq<u8>, pos: int, k: nat) -> Seq<Seq<u8>>
    decreases k,
{
    if k == 0 {
        Seq::empty()
    } else {
        seq![hex_bytes(s.subrange(pos, line_end(s, pos)))] + g2_points_of(
            s,
            next_pos(s, pos),
            (k - 1) as nat,
        )
    }
}

/// The position after `k` lines from `pos`.
pub open spec fn pos_after(s: Seq<u8>, pos: int, k: nat) -> int
    decreases k,
{
    if k == 0 {
        pos
    } else {
        pos_after(s, next_pos(s, pos), (k - 1) as nat)
    }
}

/// Whether the contents are a well-formed setup file: two count lines,
/// then that many valid G1 and G2 point lines.  The counts a count line
/// can hold always fit the supported domain table.
pub open spec fn setup_wf(s: Seq<u8>) -> bool {
    let p1 = next_pos(s, 0);
    let p2 = next_pos(s, p1);
    let n1 = count_line_val(s, 0);
    let n2 = count_line_val(s, p1);
    &&& count_line_ok(s, 0)
    &&& count_line_ok(s, p1)
    &&& g1_scan(s, p2, n1) is None
    &&& g2_scan(s, pos_after(s, p2, n1), n2) is None
}

/// Walking one more line advances the end position by one line.
proof fn lemma_pos_after_snoc(s: Seq<u8>, pos: int, k: nat)
    ensures
        pos_after(s, pos, k + 1) == next_pos(s, pos_after(s, pos, k)),
    decreases k,
{
    assert(pos_after(s, pos, k + 1) == pos_after(s, next_pos(s, pos), k));
    if k == 0 {
        assert(pos_after(s, next_pos(s, pos), 0) == next_pos(s, pos));
        assert(pos_after(s, pos, 0) == pos);
    } else {
        lemma_pos_after_snoc(s, next_pos(s, pos), (k - 1) as nat);
        assert(pos_after(s, pos, k as nat) == pos_after(s, next_pos(s, pos), (k - 1) as nat));
    }
}

/// Decodes one ASCII hex digit.
fn hex_digit_value(c: u8) -> (r: Option<u8>)
    ensures
        r is Some <==> is_hex_digit(c),
        r matches Some(v) ==> v as nat == hex_val(c) && v < 16,
{
    if 48 <= c && c <= 57 {
        Some(c - 48)
    } else if 97 <= c && c <= 102 {
        Some(c - 87)
    } else if 65 <= c && c <= 70 {
        Some(c - 55)
    } else {
        None
    }
}

/// Decodes `out_len` bytes from the hex digit pairs starting at `start`.
fn decode_hex_region(contents: &Vec<u8>, start: usize, out_len: usize) -> (r: Result<
    Vec<u8>,
    Error,
>)
    requires
        start + 2 * out_len <= contents@.len(),
    ensures
        r is Ok <==> hex_region_ok(contents@.subrange(start as int, start + 2 * out_len)),
        r matches Err(e) ==> e == Error::ParseError,
        r matches Ok(v) ==> v@ == hex_bytes(contents@.subrange(start as int, start + 2 * out_len)),
{
    let ghost region = contents@.subrange(start as int, start + 2 * out_len);
    let n_total = contents.len();
    let mut out: Vec<u8> = Vec::new();
    let mut i: usize = 0;
    while i < out_len
        invariant
            n_total == contents@.len(),
            start + 2 * out_len <= contents@.len(),
            region == contents@.subrange(start as int, start + 2 * out_len),
            i <= out_len,
            out@.len() == i,
            forall|j: int| 0 <= j < 2 * i ==> is_hex_digit(#[trigger] region[j]),
            forall|j: int|
                0 <= j < i ==> #[trigger] out@[j] == (hex_val(region[2 * j]) * 16 + hex_val(
                    region[2 * j + 1],
                )) as u8,
        decreases out_len - i,
    {
        let hi = match hex_digit_value(contents[start + 2 * i]) {
            Some(v) => v,
            None => {
                proof {
                    assert(region[2 * i as int] == contents@[start + 2 * i]);
                }
                return Err(Error::ParseError);
            },
        };
        let lo = match hex_digit_value(contents[start + 2 * i + 1]) {
            Some(v) => v,
            None => {
                proof {
                    assert(region[2 * i as int + 1] == contents@[start + 2 * i + 1]);
                }
                return Err(Error::ParseError);
            },
        };
        proof {
            assert(region[2 * i as int] == contents@[start + 2 * i]);
            assert(region[2 * i as int + 1] == contents@[start + 2 * i + 1]);
        }
        out.push(hi * 16 + lo);
        i += 1;
    }
    proof {
        assert(out@ =~= hex_bytes(region));
    }
    Ok(out)
}

/// Powers of ten.
pub open spec fn pow10(k: nat) -> nat
    decreases k,
{
    if k == 0 {
        1
    } else {
        10 * pow10((k - 1) as nat)
    }
}

/// A decimal digit string's value stays below ten to its length.
proof fn lemma_dec_val_bound(s: Seq<u8>)
    requires
        dec_region_ok(s),
    ensures
        dec_val(s) < pow10(s.len()),
    decreases s.len(),
{
    if s.len() > 0 {
        let h = s.drop_last();
        assert(dec_region_ok(h));
        lemma_dec_val_bound(h);
        assert(s.last() - 48 <= 9);
    }
}

/// Finds the end of the line starting at `pos`: the next newline or the
/// end of the input, and the position just past it.
fn next_line_end(contents: &Vec<u8>, pos: usize) -> (r: (usize, usize))
    requires
        pos <= contents@.len(),
    ensures
        pos <= r.0 <= contents@.len(),
        r.0 == line_end(contents@, pos as int),
        r.1 == next_pos(contents@, pos as int),
        pos <= r.1 <= contents@.len(),
{
    let n = contents.len();
    let mut end = pos;
    while end < n && contents[end] != 10
        invariant
            pos <= end <= n,
            n == contents@.len(),
            line_end(contents@, pos as int) == line_end(contents@, end as int),
        decreases n - end,
    {
        proof {
            assert(line_end(contents@, end as int) == line_end(contents@, end + 1));
        }
        end += 1;
    }
    proof {
        assert(line_end(contents@, end as int) == end);
    }
    if end < n {
        (end, end + 1)
    } else {
        (end, end)
    }
}

/// Parses the decimal count on the line starting at `pos`; a count line
/// must be one to nine digits.
fn parse_count_line(contents: &Vec<u8>, pos: usize) -> (r: Result<(usize, usize), Error>)
    requires
        pos <= contents@.len(),
    ensures
        r is Ok <==> count_line_ok(contents@, pos as int),
        r matches Err(e) ==> e == Error::ParseError,
        r matches Ok(v) ==> {
            &&& v.0 as nat == count_line_val(contents@, pos as int)
            &&& v.1 == next_pos(contents@, pos as int)
            &&& pos <= v.1 <= contents@.len()
            &&& v.0 < 1000000000
        },
{
    let (end, next) = next_line_end(contents, pos);
    if end == pos || end - pos > 9 {
        return Err(Error::ParseError);
    }
    let ghost line = contents@.subrange(pos as int, end as int);
    let mut v: usize = 0;
    let mut i: usize = pos;
    while i < end
        invariant
            pos <= i <= end <= contents@.len(),
            1 <= end - pos <= 9,
            end as int == line_end(contents@, pos as int),
            next == next_pos(contents@, pos as int),
            pos <= next <= contents@.len(),
            line == contents@.subrange(pos as int, end as int),
            dec_region_ok(line.subrange(0, i - pos)),
            v as nat == dec_val(line.subrange(0, i - pos)),
            (v as nat) < pow10((i - pos) as nat),
        decreases end - i,
    {
        let c = contents[i];
        if c < 48 || c > 57 {
            proof {
                assert(line[i - pos] == contents@[i as int]);
                assert(!(48 <= line[i - pos] <= 57));
                assert(!dec_region_ok(line));
                assert(contents@.subrange(pos as int, line_end(contents@, pos as int)) == line);
                assert(!count_line_ok(contents@, pos as int));
            }
            return Err(Error::ParseError);
        }
        proof {
            let k = i - pos;
            let pre = line.subrange(0, k + 1);
            assert(pre.drop_last() =~= line.subrange(0, k));
            assert(pre.last() == line[k] == contents@[i as int]);
            assert(dec_region_ok(pre));
            lemma_pow10_le((k + 1) as nat, 9);
            lemma_pow10_values();
        }
        v = v * 10 + ((c - 48) as usize);
        i += 1;
    }
    proof {
        lemma_pow10_le((end - pos) as nat, 9);
        lemma_pow10_values();
        assert(line.subrange(0, end - pos) =~= line);
    }
    Ok((v, next))
}

/// The first ten powers of ten.
proof fn lemma_pow10_values()
    ensures
        pow10(0) == 1,
        pow10(1) == 10,
        pow10(2) == 100,
        pow10(3) == 1000,
        pow10(4) == 10000,
        pow10(5) == 100000,
        pow10(6) == 1000000,
        pow10(7) == 10000000,
        pow10(8) == 100000000,
        pow10(9) == 1000000000,
{
    assert(pow10(0) == 1);
    assert(pow10(1) == 10 * pow10(0));
    assert(pow10(2) == 10 * pow10(1));
    assert(pow10(3) == 10 * pow10(2));
    assert(pow10(4) == 10 * pow10(3));
    assert(pow10(5) == 10 * pow10(4));
    assert(pow10(6) == 10 * pow10(5));
    assert(pow10(7) == 10 * pow10(6));
    assert(pow10(8) == 10 * pow10(7));
    assert(pow10(9) == 10 * pow10(8));
}

/// `pow10` never shrinks as its exponent grows.
proof fn lemma_pow10_le(a: nat, b: nat)
    requires
        a <= b,
    ensures
        pow10(a) <= pow10(b),
    decreases b,
{
    if a < b {
        lemma_pow10_le(a, (b - 1) as nat);
        assert(pow10(b) == 10 * pow10((b - 1) as nat));
        assert(pow10((b - 1) as nat) <= 10 * pow10((b - 1) as nat)) by (nonlinear_arith)
            requires
                pow10((b - 1) as nat) >= 0,
        ;
    }
}

/// Reads one fixed-width hex point line; wrong width is a parse error,
/// valid hex that is no curve point an invalid-point error.
fn read_g1_line(contents: &Vec<u8>, pos: usize) -> (r: Result<(G1Point, usize), Error>)
    requires
        pos <= contents@.len(),
    ensures
        r is Ok <==> g1_line_err(contents@, pos as int) is None,
        r matches Ok(v) ==> {
            &&& v.0@ == hex_bytes(
                contents@.subrange(pos as int, line_end(contents@, pos as int)),
            )
            &&& v.1 == next_pos(contents@, pos as int)
            &&& pos <= v.1 <= contents@.len()
        },
        r matches Err(e) ==> g1_line_err(contents@, pos as int) == Some(e),
{
    let (end, next) = next_line_end(contents, pos);
    let ghost line = contents@.subrange(pos as int, end as int);
    if end - pos != 96 {
        return Err(Error::ParseError);
    }
    let raw = match decode_hex_region(contents, pos, 48) {
        Ok(v) => v,
        Err(e) => {
            proof {
                assert(contents@.subrange(pos as int, pos + 96) =~= line);
            }
            return Err(e);
        },
    };
    proof {
        assert(contents@.subrange(pos as int, pos + 96) =~= line);
    }
    match g1_point_from_vec(&raw) {
        Some(p) => Ok((p, next)),
        None => Err(Error::InvalidPoint),
    }
}

/// Reads one fixed-width G2 hex point line.
fn read_g2_line(contents: &Vec<u8>, pos: usize) -> (r: Result<(G2Point, usize), Error>)
    requires
        pos <= contents@.len(),
    ensures
        r is Ok <==> g2_line_err(contents@, pos as int) is None,
        r matches Ok(v) ==> {
            &&& v.0@ == hex_bytes(
                contents@.subrange(pos as int, line_end(contents@, pos as int)),
            )
            &&& v.1 == next_pos(contents@, pos as int)
            &&& pos <= v.1 <= contents@.len()
        },
        r matches Err(e) ==> g2_line_err(contents@, pos as int) == Some(e),
{
    let (end, next) = next_line_end(contents, pos);
    let ghost line = contents@.subrange(pos as int, end as int);
    if end - pos != 192 {
        return Err(Error::ParseError);
    }
    let raw = match decode_hex_region(contents, pos, 96) {
        Ok(v) => v,
        Err(e) => {
            proof {
                assert(contents@.subrange(pos as int, pos + 192) =~= line);
            }
            return Err(e);
        },
    };
    proof {
        assert(contents@.subrange(pos as int, pos + 192) =~= line);
    }
    match g2_point_from_vec(&raw) {
        Some(p) => Ok((p, next)),
        None => Err(Error::InvalidPoint),
    }
}

/// Parses a trusted-setup file: two decimal count lines (one to nine
/// digits each), then that many fixed-width hex point lines for G1 and
/// G2.  Builds the domain of the smallest power-of-two width holding
/// all G1 points, inverse-transforms the points into Lagrange basis,
/// and bit-reversal-permutes them.  Succeeds exactly on well-formed
/// contents; a malformed file fails with the error of its first fault,
/// and no partial settings escape.
pub fn load_trusted_setup(contents: &Vec<u8>) -> (r: Result<KZGSettings, Error>)
    ensures
        r is Ok <==> setup_wf(contents@),
        r matches Err(e) ==> ({
            let s0 = contents@;
            let p1 = next_pos(s0, 0);
            let p2 = next_pos(s0, p1);
            let n1 = count_line_val(s0, 0);
            let n2 = count_line_val(s0, p1);
            &&& (!count_line_ok(s0, 0) || !count_line_ok(s0, p1)) ==> e == Error::ParseError
            &&& count_line_ok(s0, 0) && count_line_ok(s0, p1) ==> (g1_scan(s0, p2, n1)
                matches Some(g) ==> e == g)
            &&& count_line_ok(s0, 0) && count_line_ok(s0, p1) && g1_scan(s0, p2, n1) is None
                ==> (g2_scan(s0, pos_after(s0, p2, n1), n2) matches Some(g) ==> e == g)
        }),
        r matches Ok(st) ==> ({
            let s0 = contents@;
            let p1 = next_pos(s0, 0);
            let p2 = next_pos(s0, p1);
            let n1 = count_line_val(s0, 0);
            let n2 = count_line_val(s0, p1);
            &&& st.loaded_g1@ == g1_points_of(s0, p2, n1)
            &&& st.loaded_g1@.len() == n1
            &&& g2_encs(st.secret_g2@) == g2_points_of(s0, pos_after(s0, p2, n1), n2)
            &&& st.secret_g2@.len() == n2
            &&& is_pow2(st.fs.width())
            &&& n1 <= st.fs.width()
            &&& st.fs.width() > 1 ==> st.fs.width() / 2 < n1
            &&& st.secret_g1@.len() == st.fs.width()
            &&& g1_encs(st.secret_g1@) == rbo_seq(
                Seq::new(
                    st.fs.width(),
                    |i: int| g1_mul_pt(
                        fft_g1_spec(
                            pad_g1(st.loaded_g1@, st.fs.width()),
                            st.fs.inv_root_val(),
                        )[i],
                        inv_f(st.fs.width()),
                    ),
                ),
            )
        }),
{
    let ghost s0 = contents@;
    let (g1_count, p1) = match parse_count_line(contents, 0) {
        Ok(v) => v,
        Err(e) => {
            return Err(e);
        },
    };
    let (g2_count, p2) = match parse_count_line(contents, p1) {
        Ok(v) => v,
        Err(e) => {
            return Err(e);
        },
    };
    let ghost gn1 = count_line_val(s0, 0);
    let ghost gn2 = count_line_val(s0, next_pos(s0, 0));
    proof {
        assert(p1 as int == next_pos(s0, 0));
        assert(p2 as int == next_pos(s0, next_pos(s0, 0)));
        assert(g1_count as nat == gn1);
        assert(g2_count as nat == gn2);
    }
    let mut pos: usize = p2;
    let mut g1_projectives: Vec<G1Point> = Vec::new();
    let mut i: usize = 0;
    proof {
        assert(g1_encs(g1_projectives@) =~= Seq::<Seq<u8>>::empty());
        assert(g1_encs(g1_projectives@) + g1_points_of(s0, p2 as int, gn1) =~= g1_points_of(
            s0,
            p2 as int,
            gn1,
        ));
    }
    while i < g1_count
        invariant
            s0 == contents@,
            pos <= contents@.len(),
            i <= g1_count,
            g1_count as nat == gn1,
            count_line_ok(s0, 0),
            count_line_ok(s0, next_pos(s0, 0)),
            p2 as int == next_pos(s0, next_pos(s0, 0)),
            gn1 == count_line_val(s0, 0),
            gn2 == count_line_val(s0, next_pos(s0, 0)),
            g1_projectives@.len() == i,
            pos as int == pos_after(s0, p2 as int, i as nat),
            g1_scan(s0, p2 as int, gn1) == g1_scan(s0, pos as int, (g1_count - i) as nat),
            g1_encs(g1_projectives@) + g1_points_of(s0, pos as int, (g1_count - i) as nat)
                == g1_points_of(s0, p2 as int, gn1),
        decreases g1_count - i,
    {
        let ghost m = (g1_count - i) as nat;
        let ghost enc0 = g1_encs(g1_projectives@);
        let (p, next) = match read_g1_line(contents, pos) {
            Ok(v) => v,
            Err(e) => {
                proof {
                    assert(g1_scan(s0, pos as int, m) == Some(e));
                }
                return Err(e);
            },
        };
        proof {
            assert(g1_scan(s0, pos as int, m) == g1_scan(s0, next_pos(s0, pos as int), (m
                - 1) as nat));
            lemma_pos_after_snoc(s0, p2 as int, i as nat);
        }
        g1_projectives.push(p);
        proof {
            let line_bytes = hex_bytes(s0.subrange(pos as int, line_end(s0, pos as int)));
            assert(g1_encs(g1_projectives@) =~= enc0 + seq![line_bytes]);
            assert(g1_points_of(s0, pos as int, m) == seq![line_bytes] + g1_points_of(
                s0,
                next_pos(s0, pos as int),
                (m - 1) as nat,
            ));
            assert((enc0 + seq![line_bytes]) + g1_points_of(
                s0,
                next_pos(s0, pos as int),
                (m - 1) as nat,
            ) =~= enc0 + g1_points_of(s0, pos as int, m));
        }
        pos = next;
        i += 1;
    }
    let ghost gpg2 = pos as int;
    proof {
        assert(gpg2 == pos_after(s0, p2 as int, gn1));
        assert(g1_scan(s0, p2 as int, gn1) is None);
        assert(g1_encs(g1_projectives@) + g1_points_of(s0, pos as int, 0) =~= g1_encs(
            g1_projectives@,
        ));
    }
    let mut g2_values: Vec<G2Point> = Vec::new();
    let mut j: usize = 0;
    proof {
        assert(g2_encs(g2_values@) =~= Seq::<Seq<u8>>::empty());
        assert(g2_encs(g2_values@) + g2_points_of(s0, gpg2, gn2) =~= g2_points_of(
            s0,
            gpg2,
            gn2,
        ));
    }
    while j < g2_count
        invariant
            s0 == contents@,
            pos <= contents@.len(),
            j <= g2_count,
            g2_count as nat == gn2,
            count_line_ok(s0, 0),
            count_line_ok(s0, next_pos(s0, 0)),
            p2 as int == next_pos(s0, next_pos(s0, 0)),
            gn1 == count_line_val(s0, 0),
            gn2 == count_line_val(s0, next_pos(s0, 0)),
            gpg2 == pos_after(s0, p2 as int, gn1),
            g1_scan(s0, p2 as int, gn1) is None,
            g2_values@.len() == j,
            pos as int == pos_after(s0, gpg2, j as nat),
            g2_scan(s0, gpg2, gn2) == g2_scan(s0, pos as int, (g2_count - j) as nat),
            g2_encs(g2_values@) + g2_points_of(s0, pos as int, (g2_count - j) as nat)
                == g2_points_of(s0, gpg2, gn2),
        decreases g2_count - j,
    {
        let ghost m = (g2_count - j) as nat;
        let ghost enc0 = g2_encs(g2_values@);
        let (p, next) = match read_g2_line(contents, pos) {
            Ok(v) => v,
            Err(e) => {
                proof {
                    assert(g2_scan(s0, pos as int, m) == Some(e));
                }
                return Err(e);
            },
        };
        proof {
            assert(g2_scan(s0, pos as int, m) == g2_scan(s0, next_pos(s0, pos as int), (m
                - 1) as nat));
            lemma_pos_after_snoc(s0, gpg2, j as nat);
        }
        g2_values.push(p);
        proof {
            let line_bytes = hex_bytes(s0.subrange(pos as int, line_end(s0, pos as int)));
            assert(g2_encs(g2_values@) =~= enc0 + seq![line_bytes]);
            assert(g2_points_of(s0, pos as int, m) == seq![line_bytes] + g2_points_of(
                s0,
                next_pos(s0, pos as int),
                (m - 1) as nat,
            ));
            assert((enc0 + seq![line_bytes]) + g2_points_of(
                s0,
                next_pos(s0, pos as int),
                (m - 1) as nat,
            ) =~= enc0 + g2_points_of(s0, pos as int, m));
        }
        pos = next;
        j += 1;
    }
    proof {
        assert(g2_scan(s0, gpg2, gn2) is None);
        assert(g2_encs(g2_values@) + g2_points_of(s0, pos as int, 0) =~= g2_encs(g2_values@));
    }
    // the smallest power-of-two domain holding every G1 point; a count
    // line holds at most nine digits, so the table always suffices
    let mut max_scale: usize = 0;
    let mut width: usize = 1;
    proof {
        vstd::arithmetic::power2::lemma2_to64();
    }
    while width < g1_count && max_scale < 31
        invariant
            max_scale <= 31,
            width as nat == pow2(max_scale as nat),
            width <= 0x80000000,
            max_scale > 0 ==> pow2((max_scale - 1) as nat) < g1_count as nat,
        decreases 31 - max_scale,
    {
        proof {
            vstd::arithmetic::power2::lemma_pow2_adds(max_scale as nat, 1);
            vstd::arithmetic::power2::lemma2_to64();
            vstd::arithmetic::power2::lemma_pow2_strictly_increases(
                (max_scale + 1) as nat,
                32,
            );
        }
        width = width * 2;
        max_scale += 1;
    }
    proof {
        vstd::arithmetic::power2::lemma2_to64();
        if width < g1_count {
            assert(max_scale == 31);
            assert(width as nat == pow2(31));
            assert(g1_count < 1000000000);
            assert(false);
        }
    }
    let fs = match FFTSettings::new(max_scale) {
        Ok(f) => f,
        Err(_) => {
            return Err(Error::DomainOverflow);
        },
    };
    let lagrange = match fs.fft_g1(&g1_projectives, true) {
        Ok(v) => v,
        Err(_) => {
            return Err(Error::DomainOverflow);
        },
    };
    let _published_width = fs.max_width();
    proof {
        if fs.width() > 1 {
            assert(max_scale > 0);
            vstd::arithmetic::power2::lemma_pow2_adds((max_scale - 1) as nat, 1);
            vstd::arithmetic::power2::lemma2_to64();
            assert(fs.width() / 2 == pow2((max_scale - 1) as nat));
        }
    }
    let ghost loaded = g1_encs(g1_projectives@);
    let ghost lag_spec = Seq::new(
        fs.width(),
        |i: int| g1_mul_pt(
            fft_g1_spec(pad_g1(loaded, fs.width()), fs.inv_root_val())[i],
            inv_f(fs.width()),
        ),
    );
    proof {
        assert(g1_encs(lagrange@) =~= lag_spec);
    }
    let ghost lag_pts = lagrange@;
    let mut secret_g1 = lagrange;
    reverse_bit_order(&mut secret_g1);
    proof {
        assert(g1_encs(secret_g1@) =~= rbo_seq(lag_spec)) by {
            assert forall|i: int| 0 <= i < secret_g1@.len() implies g1_encs(secret_g1@)[i]
                == rbo_seq(lag_spec)[i] by {
                let bi = crate::fft::bitrev(i as nat, crate::fft::log2(secret_g1@.len()));
                crate::fft::lemma_bitrev_bound(
                    i as nat,
                    crate::fft::log2(secret_g1@.len()),
                );
                crate::fft::lemma_pow2_log2(secret_g1@.len());
                assert(secret_g1@[i] == lag_pts[bi as int]);
                assert(g1_encs(secret_g1@)[i] == secret_g1@[i]@);
                assert(g1_encs(lag_pts)[bi as int] == lag_pts[bi as int]@);
                assert(g1_encs(lag_pts)[bi as int] == lag_spec[bi as int]);
            }
        }
    }
    Ok(KZGSettings { fs, secret_g1, secret_g2: g2_values, loaded_g1: Ghost(loaded) })
}

} // verus!
