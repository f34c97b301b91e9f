//! Perceptual image similarity: a structural-dissimilarity distance between
//! two encoded images, and the choice of the candidate closest to a
//! reference image, ties broken by the lowest index.
//!
//! The underlying metric is dssim's floating-point dissimilarity. Floating
//! point stays inside the trusted wrapper: the value crosses into verified
//! code as decimal text with twelve fractional digits, which verified code
//! parses into a fixed-point integer that orders as the metric does.

use vstd::prelude::*;

use crate::error::Error;
use crate::text::{all_digits, dec_value, find_char_from, first_char_at,
    lemma_dec_value_bound, lemma_dec_value_zeros, lemma_first_char_props, pow10};

verus! {

/// The dimensions that lodepng::decode32 reads from PNG bytes: `None` for
/// bytes it does not decode.
pub uninterp spec fn png_info(bytes: Seq<u8>) -> Option<(nat, nat)>;

/// Relies on lodepng::decode32: reports the decoded width and height of a
/// PNG, or `None` for bytes that do not decode.
#[verifier::external_body]
fn png_dims(bytes: &[u8]) -> (r: Option<(usize, usize)>)
    ensures
        match r {
            Some(d) => png_info(bytes@) == Some((d.0 as nat, d.1 as nat)),
            None => png_info(bytes@) is None,
        },
{
    match lodepng::decode32(bytes) {
        Ok(img) => Some((img.width, img.height)),
        Err(_) => None,
    }
}

/// Both inputs decode, to one common size that dssim accepts: its blur
/// refuses a width or height of two to the twenty-fourth and above with a
/// hard assertion, while PNG allows dimensions beyond that.
pub open spec fn comparable(a: Seq<u8>, b: Seq<u8>) -> bool {
    &&& png_info(a) matches Some(d) && d.0 < 16777216 && d.1 < 16777216
    &&& png_info(b) == png_info(a)
}

/// The text `0.000000000000`: dssim's value for identical images, formatted
/// with twelve fractional digits.
pub open spec fn zero_fixed12() -> Seq<char> {
    seq!['0', '.', '0', '0', '0', '0', '0', '0', '0', '0', '0', '0', '0', '0']
}

/// Relies on lodepng::decode32, dssim_core::Dssim::compare, and the Display
/// of dssim's value: the dissimilarity of two decodable, equally-sized PNG
/// images, formatted with twelve fractional digits. The images must be
/// `comparable`: dssim's blur asserts that each dimension is below two to
/// the twenty-fourth, and its comparison asserts equal sizes. dssim's result
/// is not a pure function of the inputs (its parallel reduction may reorder
/// a floating sum), so no more is stated than what holds of every outcome:
/// comparing an image with a byte-identical one yields exactly zero, because
/// every per-scale score of a self-comparison is exactly 1.0.
#[verifier::external_body]
fn raw_distance(a: &[u8], b: &[u8]) -> (r: String)
    requires
        comparable(a@, b@),
    ensures
        a@ == b@ ==> r@ == zero_fixed12(),
{
    let pa = lodepng::decode32(a).unwrap();
    let pb = lodepng::decode32(b).unwrap();
    let d = dssim_core::Dssim::new();
    let ia = d.create_image_rgba(&pa.buffer, pa.width, pa.height).unwrap();
    let ib = d.create_image_rgba(&pb.buffer, pb.width, pb.height).unwrap();
    let (v, _) = d.compare(&ia, ib);
    format!("{:.12}", v)
}

/// The fixed-point reading of a dissimilarity printed with twelve fractional
/// digits, in units of one trillionth: a negative value counts as zero, and
/// text outside the expected shape (or seven and more integer digits, far
/// beyond any real dissimilarity) saturates to the maximum.
pub open spec fn fixed12_spec(s: Seq<char>) -> int {
    if s.len() > 0 && s[0] == '-' {
        0
    } else {
        match first_char_at(s, '.', 0) {
            Some(p) => {
                let ip = s.subrange(0, p);
                let fp = s.subrange(p + 1, s.len() as int);
                if 1 <= ip.len() <= 7 && all_digits(ip) && fp.len() == 12 && all_digits(fp) {
                    dec_value(ip) * 1000000000000 + dec_value(fp)
                } else {
                    u64::MAX as int
                }
            },
            None => u64::MAX as int,
        }
    }
}

/// Parses a run of decimal digits into its value.
fn parse_digits_range(s: &str, lo: usize, hi: usize) -> (r: Option<u64>)
    requires
        lo <= hi <= s@.len(),
        hi - lo <= 12,
    ensures
        match r {
            Some(v) => all_digits(s@.subrange(lo as int, hi as int)) && v as int == dec_value(
                s@.subrange(lo as int, hi as int),
            ),
            None => !all_digits(s@.subrange(lo as int, hi as int)),
        },
{
    let ghost whole = s@.subrange(lo as int, hi as int);
    let mut i = lo;
    let mut val: u64 = 0;
    while i < hi
        invariant
            lo <= i <= hi <= s@.len(),
            hi - lo <= 12,
            whole == s@.subrange(lo as int, hi as int),
            all_digits(s@.subrange(lo as int, i as int)),
            val as int == dec_value(s@.subrange(lo as int, i as int)),
            (val as int) < pow10((i - lo) as nat),
        decreases hi - i,
    {
        let c = s.get_char(i);
        let ghost pre = s@.subrange(lo as int, i as int);
        let ghost ext = s@.subrange(lo as int, i as int + 1);
        proof {
            assert(ext.drop_last() =~= pre);
        }
        if c < '0' || c > '9' {
            proof {
                assert(whole[i - lo] == c);
            }
            return None;
        }
        let d: u64 = (c as u32 - '0' as u32) as u64;
        proof {
            lemma_pow10_le_12((i - lo) as nat);
            assert(pow10((i + 1 - lo) as nat) == 10 * pow10((i - lo) as nat));
        }
        val = val * 10 + d;
        i = i + 1;
    }
    proof {
        assert(s@.subrange(lo as int, hi as int) =~= whole);
    }
    Some(val)
}

/// Ten to the twelfth is a trillion.
proof fn lemma_pow10_12()
    ensures
        pow10(12) == 1000000000000,
{
    assert(pow10(12) == 1000000000000) by {
        reveal_with_fuel(pow10, 13);
    }
}

/// Ten to a power of at most twelve is at most a trillion.
proof fn lemma_pow10_le_12(n: nat)
    requires
        n <= 12,
    ensures
        pow10(n) <= 1000000000000,
{
    lemma_pow10_mono(n, 12);
    lemma_pow10_12();
}

/// Ten to a power grows with the exponent.
proof fn lemma_pow10_mono(a: nat, b: nat)
    requires
        a <= b,
    ensures
        pow10(a) <= pow10(b),
        pow10(a) >= 1,
    decreases b,
{
    if a < b {
        lemma_pow10_mono(a, (b - 1) as nat);
        assert(pow10(b) == 10 * pow10((b - 1) as nat));
    } else if b > 0 {
        lemma_pow10_mono((a - 1) as nat, (b - 1) as nat);
        assert(pow10(b) == 10 * pow10((b - 1) as nat));
    }
}

/// Parses a dissimilarity printed with twelve fractional digits into
/// trillionths, negative values reading as zero and malformed text
/// saturating to the maximum.
pub fn parse_fixed12(s: &str) -> (r: u64)
    ensures
        r as int == fixed12_spec(s@),
{
    let len = s.unicode_len();
    if len > 0 && s.get_char(0) == '-' {
        return 0;
    }
    match find_char_from(s, '.', 0) {
        None => u64::MAX,
        Some(p) => {
            proof {
                lemma_first_char_props(s@, '.', 0);
            }
            let fplen = len - (p + 1);
            if p < 1 || p > 7 || fplen != 12 {
                return u64::MAX;
            }
            let ip = parse_digits_range(s, 0, p);
            let fp = parse_digits_range(s, p + 1, len);
            match (ip, fp) {
                (Some(a), Some(b)) => {
                    proof {
                        lemma_dec_value_bound(s@.subrange(0, p as int));
                        lemma_dec_value_bound(s@.subrange(p as int + 1, len as int));
                        lemma_pow10_le_12((p - 0) as nat);
                        lemma_pow10_le_12(12);
                        lemma_pow10_mono(p as nat, 7);
                        assert(pow10(7) == 10 * pow10(6));
                        assert(pow10(6) == 10 * pow10(5));
                        assert(pow10(5) == 10 * pow10(4));
                        assert(pow10(4) == 10 * pow10(3));
                        assert(pow10(3) == 10 * pow10(2));
                        assert(pow10(2) == 10 * pow10(1));
                        assert(pow10(1) == 10 * pow10(0));
                    }
                    a * 1000000000000 + b
                },
                _ => u64::MAX,
            }
        },
    }
}

/// The perceptual distance between two encoded images, in trillionths of the
/// dissimilarity value: zero for identical bytes, growing with visual
/// divergence. Fails exactly when either image does not decode, the
/// dimensions differ, or a dimension is too large for the metric.
pub fn distance(a: &Vec<u8>, b: &Vec<u8>) -> (r: Result<u64, Error>)
    ensures
        r is Ok <==> comparable(a@, b@),
        r is Ok && a@ == b@ ==> r->Ok_0 == 0,
        r is Err ==> r->Err_0 is Decode,
{
    let da = match png_dims(a.as_slice()) {
        Some(d) => d,
        None => {
            return Err(Error::Decode);
        },
    };
    let db = match png_dims(b.as_slice()) {
        Some(d) => d,
        None => {
            return Err(Error::Decode);
        },
    };
    if da.0 != db.0 || da.1 != db.1 || da.0 >= 16777216 || da.1 >= 16777216 {
        return Err(Error::Decode);
    }
    let text = raw_distance(a.as_slice(), b.as_slice());
    let d = parse_fixed12(text.as_str());
    proof {
        if a@ == b@ {
            lemma_fixed12_zero();
        }
    }
    Ok(d)
}

/// The zero dissimilarity text parses to zero.
proof fn lemma_fixed12_zero()
    ensures
        fixed12_spec(zero_fixed12()) == 0,
{
    let s = zero_fixed12();
    assert(first_char_at(s, '.', 0) == Some(1int)) by {
        reveal_with_fuel(first_char_at, 3);
        assert(s[0] != '.');
        assert(s[1] == '.');
    }
    let ip = s.subrange(0, 1);
    let fp = s.subrange(2, s.len() as int);
    assert(ip =~= seq!['0']);
    assert(dec_value(ip) == 0) by {
        lemma_dec_value_zeros(ip);
    }
    assert(forall|i: int| 0 <= i < fp.len() ==> fp[i] == '0');
    lemma_dec_value_zeros(fp);
}

/// The distances from a reference image to each candidate, in candidate
/// order. Succeeds exactly when the reference decodes and every candidate is
/// comparable with it; a byte-identical candidate is at distance zero.
pub fn distances(reference: &Vec<u8>, candidates: &Vec<Vec<u8>>) -> (r: Result<Vec<u64>, Error>)
    ensures
        r is Ok <==> (png_info(reference@) is Some && forall|i: int|
            0 <= i < candidates@.len() ==> comparable(reference@, candidates@[i]@)),
        r is Ok ==> r->Ok_0@.len() == candidates@.len(),
        r is Ok ==> forall|i: int|
            0 <= i < candidates@.len() && candidates@[i]@ == reference@ ==> r->Ok_0@[i] == 0,
        r is Err ==> r->Err_0 is Decode,
{
    let mut ds: Vec<u64> = Vec::new();
    let mut i: usize = 0;
    if png_dims(reference.as_slice()).is_none() {
        return Err(Error::Decode);
    }
    while i < candidates.len()
        invariant
            i <= candidates.len(),
            ds@.len() == i,
            png_info(reference@) is Some,
            forall|j: int| 0 <= j < i ==> comparable(reference@, candidates@[j]@),
            forall|j: int| 0 <= j < i && candidates@[j]@ == reference@ ==> ds@[j] == 0,
        decreases candidates.len() - i,
    {
        match distance(reference, &candidates[i]) {
            Ok(d) => {
                ds.push(d);
            },
            Err(e) => {
                return Err(e);
            },
        }
        i = i + 1;
    }
    Ok(ds)
}

/// `i` is the index `min_index` returns: a position of the minimum, with
/// every earlier element strictly greater.
pub open spec fn is_min_index(ds: Seq<u64>, i: int) -> bool {
    &&& 0 <= i < ds.len()
    &&& forall|j: int| 0 <= j < ds.len() ==> ds[i] <= ds[j]
    &&& forall|j: int| 0 <= j < i ==> ds[j] > ds[i]
}

/// The index of the smallest distance, ties broken by the lowest index.
pub fn min_index(ds: &Vec<u64>) -> (r: usize)
    requires
        ds@.len() > 0,
    ensures
        is_min_index(ds@, r as int),
{
    let mut best: usize = 0;
    let mut i: usize = 1;
    while i < ds.len()
        invariant
            1 <= i <= ds@.len(),
            best < i,
            forall|j: int| 0 <= j < i ==> ds@[best as int] <= ds@[j],
            forall|j: int| 0 <= j < best ==> ds@[j] > ds@[best as int],
        decreases ds@.len() - i,
    {
        if ds[i] < ds[best] {
            best = i;
        }
        i = i + 1;
    }
    best
}

/// The candidate most similar to the reference: the index of the minimum
/// distance, ties broken by the lowest index. Fails exactly when the
/// reference does not decode or any candidate is not comparable with it; a
/// candidate byte-identical to the reference is never beaten by a later
/// candidate.
pub fn best_match(reference: &Vec<u8>, candidates: &Vec<Vec<u8>>) -> (r: Result<usize, Error>)
    requires
        candidates@.len() > 0,
    ensures
        r is Ok <==> (png_info(reference@) is Some && forall|i: int|
            0 <= i < candidates@.len() ==> comparable(reference@, candidates@[i]@)),
        r is Ok ==> r->Ok_0 < candidates@.len(),
        r is Ok ==> forall|i: int|
            0 <= i < candidates@.len() && candidates@[i]@ == reference@ ==> r->Ok_0 <= i,
        r is Err ==> r->Err_0 is Decode,
{
    let ds = match distances(reference, candidates) {
        Ok(ds) => ds,
        Err(e) => {
            return Err(e);
        },
    };
    let best = min_index(&ds);
    proof {
        assert forall|i: int|
            0 <= i < candidates@.len() && candidates@[i]@ == reference@ implies best <= i by {
            assert(ds@[i] == 0);
            assert(ds@[best as int] <= ds@[i]);
            if i < best as int {
                assert(ds@[i] > ds@[best as int]);
            }
        }
    }
    Ok(best)
}

/// Among the distances, the first zero wins: if candidate `i` is at distance
/// zero and no earlier candidate is, the chosen index is exactly `i`. With
/// `distance(img, img) == 0` this is why a stored reference image that
/// reappears among the candidates is picked, whatever the other candidates.
pub proof fn lemma_best_match_picks_reference(ds: Seq<u64>, r: int, i: int)
    requires
        is_min_index(ds, r),
        0 <= i < ds.len(),
        ds[i] == 0,
        forall|j: int| 0 <= j < i ==> ds[j] != 0,
    ensures
        r == i,
{
    assert(ds[r] <= ds[i]);
    if r < i {
        assert(ds[r] != 0);
    }
    if r > i {
        assert(ds[i] > ds[r]);
    }
}

} // verus!
