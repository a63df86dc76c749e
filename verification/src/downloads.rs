//! Naming and validation of files saved into the Downloads folder.
//!
//! The page hands over a base64 payload, an optional caller-supplied file
//! name and (for images) a MIME type. This module decides whether the payload
//! is acceptable, which stem and extension the saved file gets, and which
//! `name (n).ext` candidate is used so that no existing file is overwritten.

use base64::Engine as _;
use vstd::prelude::*;
use vstd::string::StringSliceAdditionalSpecFns;

use crate::text::{
    digit_char, trim_start_by, trim_end_by, lemma_trim_start_shape, lemma_trim_end_shape,
    ascii_lower_char, trim_pred,
    ascii_alnum_char, chars_before_first, chars_eq_str, chars_of, char_is_alphanumeric,
    char_is_whitespace, decimal, decimal_string, is_ascii_alnum, is_stem_edge, lower_chars,
    lower_seq, push_char, char_alphanumeric, spec_char_is_whitespace, string_of,
    string_of_range, trim_by, trim_chars, trim_ws, ascii_lower, before_first, TrimSet,
};

verus! {

/// Hard cap on a single decoded image (64 MiB).
pub const MAX_IMAGE_BYTES: usize = 67108864;

/// Hard cap on a single decoded general attachment (256 MiB).
pub const MAX_FILE_BYTES: usize = 268435456;

/// Stem used for an image whose name has nothing usable left.
pub const DEFAULT_STEM: &'static str = "slack-image";

/// Stem used for an attachment whose name has nothing usable left.
pub const DEFAULT_FILE_STEM: &'static str = "slack-file";

/// Why a save request was refused.
#[derive(Debug)]
pub enum SaveError {
    EmptyData,
    InvalidData,
    TooLarge,
    NoDownloadDir,
    WriteFailed(String),
    OpenFailed(String),
    /// Every candidate name in the target folder is taken.
    NoFreeName,
}

pub open spec fn opt_str_view(o: Option<&str>) -> Option<Seq<char>> {
    match o {
        Some(s) => Some(s@),
        None => None,
    }
}

pub open spec fn opt_string_view(o: Option<String>) -> Option<Seq<char>> {
    match o {
        Some(s) => Some(s@),
        None => None,
    }
}

// ---------------------------------------------------------------------------
// Base64 payloads
// ---------------------------------------------------------------------------

/// The symbol of a six-bit value in the standard base64 alphabet
/// (`A-Z`, `a-z`, `0-9`, `+`, `/`).
pub open spec fn b64_sym(v: int) -> u8 {
    if v < 26 {
        (65 + v) as u8
    } else if v < 52 {
        (97 + v - 26) as u8
    } else if v < 62 {
        (48 + v - 52) as u8
    } else if v == 62 {
        43u8
    } else {
        47u8
    }
}

/// The padded standard base64 encoding of `b` (RFC 4648): each group of
/// three bytes gives four symbols, and a final group of one or two bytes is
/// padded with `=` to four.
pub open spec fn base64_encode(b: Seq<u8>) -> Seq<u8>
    decreases b.len(),
{
    if b.len() == 0 {
        Seq::empty()
    } else if b.len() == 1 {
        b64_group1(b[0] as int)
    } else if b.len() == 2 {
        b64_group2(b[0] as int, b[1] as int)
    } else {
        b64_group3(b[0] as int, b[1] as int, b[2] as int) + base64_encode(b.skip(3))
    }
}

/// The four symbols of a final single byte.
pub open spec fn b64_group1(x: int) -> Seq<u8> {
    seq![b64_sym(x / 4), b64_sym((x % 4) * 16), 61u8, 61u8]
}

/// The four symbols of a final pair of bytes.
pub open spec fn b64_group2(x: int, y: int) -> Seq<u8> {
    seq![b64_sym(x / 4), b64_sym((x % 4) * 16 + y / 16), b64_sym((y % 16) * 4), 61u8]
}

/// The four symbols of three bytes.
pub open spec fn b64_group3(x: int, y: int, z: int) -> Seq<u8> {
    seq![b64_sym(x / 4), b64_sym((x % 4) * 16 + y / 16), b64_sym((y % 16) * 4 + z / 64), b64_sym(z % 64)]
}

/// The standard base64 alphabet: the values 0 to 25 are `A` to `Z`, 26 to
/// 51 are `a` to `z`, 52 to 61 are `0` to `9`, 62 is `+` and 63 is `/`.
pub proof fn lemma_b64_alphabet(v: int)
    ensures
        0 <= v < 26 ==> b64_sym(v) == 65 + v,
        26 <= v < 52 ==> b64_sym(v) == 97 + (v - 26),
        52 <= v < 62 ==> b64_sym(v) == 48 + (v - 52),
        b64_sym(62) == 43,
        b64_sym(63) == 47,
{
}

/// Padding: one byte left over gives two symbols and `==`, two give three
/// symbols and `=`.
pub proof fn lemma_base64_padding(d: Seq<u8>)
    ensures
        d.len() % 3 == 1 ==> padding_len(base64_encode(d)) == 2,
        d.len() % 3 == 2 ==> padding_len(base64_encode(d)) == 1,
        d.len() % 3 == 0 ==> padding_len(base64_encode(d)) == 0,
{
    lemma_base64_len(d);
    let k = (d.len() + 2) / 3;
    assert(base64_encode(d).len() / 4 * 3 == 3 * k);
}

/// Whether `input` is the padded standard base64 encoding of some bytes.
pub open spec fn is_base64(input: Seq<u8>) -> bool {
    exists|d: Seq<u8>| #[trigger] base64_encode(d) == input
}

/// The number of `=` among the last two bytes of `input`.
pub open spec fn padding_len(input: Seq<u8>) -> int {
    (if input.len() >= 1 && input[input.len() - 1] == 61u8 { 1int } else { 0int }) + (if input.len()
        >= 2 && input[input.len() - 2] == 61u8 {
        1int
    } else {
        0int
    })
}

/// The number of bytes that a base64 text of this shape decodes to.
pub open spec fn decoded_len(input: Seq<u8>) -> int {
    input.len() as int / 4 * 3 - padding_len(input)
}

/// The error type of the `base64` decoder, carried through unread.
#[verifier::external_type_specification]
#[verifier::external_body]
pub struct ExDecodeError(base64::DecodeError);

/// Calls `base64::engine::general_purpose::STANDARD.decode`. This engine
/// requires canonical padding and rejects non-zero trailing bits, so it
/// accepts exactly the padded standard encodings and gives back the bytes
/// that were encoded; every other input is an error.
#[verifier::external_body]
fn base64_standard_decode(input: &[u8]) -> (out: Result<Vec<u8>, base64::DecodeError>)
    ensures
        match out {
            Ok(v) => base64_encode(v@) == input@,
            Err(_) => !is_base64(input@),
        },
{
    base64::engine::general_purpose::STANDARD.decode(input)
}

/// Whether a base64 text of `text_len` bytes cannot decode to at most
/// `max_bytes` bytes: its groups of four announce three bytes each, of which
/// the padding can take back at most two.
pub open spec fn text_exceeds_cap(text_len: nat, max_bytes: nat) -> bool {
    text_len / 4 * 3 > max_bytes + 2
}

/// Why a payload of `text_len` base64 bytes that decodes to `decoded` is
/// refused under a cap of `max_bytes` decoded bytes, if it is.
pub open spec fn payload_outcome(text_len: nat, decoded: Option<Seq<u8>>, max_bytes: nat) -> Result<
    Seq<u8>,
    SaveError,
> {
    if text_len == 0 {
        Err(SaveError::EmptyData)
    } else if text_exceeds_cap(text_len, max_bytes) {
        Err(SaveError::TooLarge)
    } else {
        match decoded {
            None => Err(SaveError::InvalidData),
            Some(d) => if d.len() == 0 {
                Err(SaveError::EmptyData)
            } else if d.len() > max_bytes {
                Err(SaveError::TooLarge)
            } else {
                Ok(d)
            },
        }
    }
}

pub open spec fn payload_matches(r: Result<Vec<u8>, SaveError>, o: Result<Seq<u8>, SaveError>) -> bool {
    match (r, o) {
        (Ok(v), Ok(d)) => v@ == d,
        (Err(e), Err(f)) => e == f,
        _ => false,
    }
}

/// Why the base64 text `input` is refused under a cap of `max_bytes`
/// decoded bytes; `None` when it is accepted.
pub open spec fn payload_refusal(input: Seq<u8>, max_bytes: nat) -> Option<SaveError> {
    if input.len() == 0 {
        Some(SaveError::EmptyData)
    } else if text_exceeds_cap(input.len(), max_bytes) {
        Some(SaveError::TooLarge)
    } else if !is_base64(input) {
        Some(SaveError::InvalidData)
    } else if decoded_len(input) == 0 {
        Some(SaveError::EmptyData)
    } else if decoded_len(input) > max_bytes {
        Some(SaveError::TooLarge)
    } else {
        None
    }
}

/// Decides a payload once its decoding is known: `text_len` is the length of
/// the base64 text and `decoded` what the decoder made of it.
pub fn settle_payload(text_len: usize, decoded: Option<Vec<u8>>, max_bytes: usize) -> (r: Result<
    Vec<u8>,
    SaveError,
>)
    ensures
        payload_matches(
            r,
            payload_outcome(
                text_len as nat,
                match decoded {
                    Some(v) => Some(v@),
                    None => None,
                },
                max_bytes as nat,
            ),
        ),
{
    if text_len == 0 {
        return Err(SaveError::EmptyData);
    }
    if exceeds_cap(text_len, max_bytes) {
        return Err(SaveError::TooLarge);
    }
    match decoded {
        None => Err(SaveError::InvalidData),
        Some(data) => {
            if data.len() == 0 {
                Err(SaveError::EmptyData)
            } else if data.len() > max_bytes {
                Err(SaveError::TooLarge)
            } else {
                Ok(data)
            }
        },
    }
}

fn exceeds_cap(text_len: usize, max_bytes: usize) -> (b: bool)
    ensures
        b == text_exceeds_cap(text_len as nat, max_bytes as nat),
{
    assert(text_len / 4 * 3 <= text_len) by (nonlinear_arith);
    let announced = text_len / 4 * 3;
    announced > 2 && announced - 2 > max_bytes
}

proof fn lemma_b64_sym_not_pad(v: int)
    requires
        0 <= v < 64,
    ensures
        b64_sym(v) != 61u8,
{
}

/// The encoding has four symbols per started group of three bytes, and its
/// shape gives back the number of bytes encoded.
pub proof fn lemma_base64_len(d: Seq<u8>)
    ensures
        base64_encode(d).len() == 4 * ((d.len() + 2) / 3),
        decoded_len(base64_encode(d)) == d.len(),
    decreases d.len(),
{
    let e = base64_encode(d);
    if d.len() == 0 {
    } else if d.len() == 1 {
        assert(e.len() == 4);
    } else if d.len() == 2 {
        assert(e.len() == 4);
        lemma_b64_sym_not_pad((d[1] as int % 16) * 4);
    } else {
        let rest = d.skip(3);
        lemma_base64_len(rest);
        let r = base64_encode(rest);
        let g = b64_group3(d[0] as int, d[1] as int, d[2] as int);
        assert(e == g + r);
        if rest.len() == 0 {
            lemma_b64_sym_not_pad((d[1] as int % 16) * 4 + d[2] as int / 64);
            lemma_b64_sym_not_pad(d[2] as int % 64);
            assert(e.len() == 4);
            assert(e[3] == g[3] && e[2] == g[2]);
        } else {
            assert(r.len() >= 4);
            assert(e[e.len() - 1] == r[r.len() - 1]);
            assert(e[e.len() - 2] == r[r.len() - 2]);
            assert(padding_len(e) == padding_len(r));
            assert((r.len() + 4) / 4 * 3 == r.len() / 4 * 3 + 3);
        }
    }
}

proof fn lemma_b64_sym_injective(v: int, w: int)
    requires
        0 <= v < 64,
        0 <= w < 64,
        b64_sym(v) == b64_sym(w),
    ensures
        v == w,
{
}

proof fn lemma_b64_split(x: int, y: int, a: int, b: int, m: int)
    requires
        0 <= y < m,
        0 <= b < m,
        x * m + y == a * m + b,
        m == 4 || m == 16 || m == 64,
    ensures
        x == a,
        y == b,
{
    assert(x == a) by (nonlinear_arith)
        requires
            0 <= y < m,
            0 <= b < m,
            x * m + y == a * m + b,
            m > 0,
    ;
}

proof fn lemma_b64_groups_injective(x: int, y: int, z: int, x2: int, y2: int, z2: int)
    requires
        0 <= x < 256,
        0 <= y < 256,
        0 <= z < 256,
        0 <= x2 < 256,
        0 <= y2 < 256,
        0 <= z2 < 256,
    ensures
        b64_group3(x, y, z) == b64_group3(x2, y2, z2) ==> x == x2 && y == y2 && z == z2,
        b64_group2(x, y) == b64_group2(x2, y2) ==> x == x2 && y == y2,
        b64_group1(x) == b64_group1(x2) ==> x == x2,
        b64_group1(x) != b64_group2(x2, y2),
        b64_group1(x) != b64_group3(x2, y2, z2),
        b64_group2(x, y) != b64_group3(x2, y2, z2),
{
    let g3 = b64_group3(x, y, z);
    let h3 = b64_group3(x2, y2, z2);
    lemma_b64_sym_not_pad((y2 % 16) * 4 + z2 / 64);
    lemma_b64_sym_not_pad(z2 % 64);
    lemma_b64_sym_not_pad((y % 16) * 4);
    assert(g3[3] == b64_sym(z % 64) && h3[2] == b64_sym((y2 % 16) * 4 + z2 / 64));
    assert(b64_group1(x)[2] == 61u8 && b64_group2(x, y)[3] == 61u8 && b64_group2(x, y)[2] != 61u8);
    if g3 == h3 {
        assert(g3[0] == h3[0] && g3[1] == h3[1] && g3[2] == h3[2] && g3[3] == h3[3]);
        lemma_b64_sym_injective(x / 4, x2 / 4);
        lemma_b64_sym_injective((x % 4) * 16 + y / 16, (x2 % 4) * 16 + y2 / 16);
        lemma_b64_sym_injective((y % 16) * 4 + z / 64, (y2 % 16) * 4 + z2 / 64);
        lemma_b64_sym_injective(z % 64, z2 % 64);
        lemma_b64_split(x % 4, y / 16, x2 % 4, y2 / 16, 16);
        lemma_b64_split(y % 16, z / 64, y2 % 16, z2 / 64, 4);
        assert(x == x / 4 * 4 + x % 4 && x2 == x2 / 4 * 4 + x2 % 4);
        assert(y == y / 16 * 16 + y % 16 && y2 == y2 / 16 * 16 + y2 % 16);
        assert(z == z / 64 * 64 + z % 64 && z2 == z2 / 64 * 64 + z2 % 64);
    }
    let g2 = b64_group2(x, y);
    let h2 = b64_group2(x2, y2);
    if g2 == h2 {
        assert(g2[0] == h2[0] && g2[1] == h2[1] && g2[2] == h2[2]);
        lemma_b64_sym_injective(x / 4, x2 / 4);
        lemma_b64_sym_injective((x % 4) * 16 + y / 16, (x2 % 4) * 16 + y2 / 16);
        lemma_b64_sym_injective((y % 16) * 4, (y2 % 16) * 4);
        lemma_b64_split(x % 4, y / 16, x2 % 4, y2 / 16, 16);
        assert(x == x / 4 * 4 + x % 4 && x2 == x2 / 4 * 4 + x2 % 4);
        assert(y == y / 16 * 16 + y % 16 && y2 == y2 / 16 * 16 + y2 % 16);
    }
    let g1 = b64_group1(x);
    let h1 = b64_group1(x2);
    if g1 == h1 {
        assert(g1[0] == h1[0] && g1[1] == h1[1]);
        lemma_b64_sym_injective(x / 4, x2 / 4);
        lemma_b64_sym_injective((x % 4) * 16, (x2 % 4) * 16);
        assert(x == x / 4 * 4 + x % 4 && x2 == x2 / 4 * 4 + x2 % 4);
    }
}

/// Distinct byte sequences have distinct encodings, so a base64 text
/// decodes to at most one byte sequence.
pub proof fn lemma_base64_injective(a: Seq<u8>, b: Seq<u8>)
    requires
        base64_encode(a) == base64_encode(b),
    ensures
        a == b,
    decreases a.len(),
{
    lemma_base64_len(a);
    lemma_base64_len(b);
    let ea = base64_encode(a);
    if a.len() == 0 || b.len() == 0 {
        assert(a.len() == 0 && b.len() == 0);
        assert(a =~= b);
        return;
    }
    let ga = if a.len() == 1 {
        b64_group1(a[0] as int)
    } else if a.len() == 2 {
        b64_group2(a[0] as int, a[1] as int)
    } else {
        b64_group3(a[0] as int, a[1] as int, a[2] as int)
    };
    let gb = if b.len() == 1 {
        b64_group1(b[0] as int)
    } else if b.len() == 2 {
        b64_group2(b[0] as int, b[1] as int)
    } else {
        b64_group3(b[0] as int, b[1] as int, b[2] as int)
    };
    assert(ea.take(4) =~= ga);
    assert(base64_encode(b).take(4) =~= gb);
    let xa1: int = if a.len() >= 2 { a[1] as int } else { 0 };
    let xa2: int = if a.len() >= 3 { a[2] as int } else { 0 };
    let xb1: int = if b.len() >= 2 { b[1] as int } else { 0 };
    let xb2: int = if b.len() >= 3 { b[2] as int } else { 0 };
    lemma_b64_groups_injective(a[0] as int, xa1, xa2, b[0] as int, xb1, xb2);
    lemma_b64_groups_injective(b[0] as int, xb1, xb2, a[0] as int, xa1, xa2);
    if a.len() >= 3 {
        assert(b.len() >= 3);
        assert(ea.skip(4) =~= base64_encode(a.skip(3)));
        assert(base64_encode(b).skip(4) =~= base64_encode(b.skip(3)));
        lemma_base64_injective(a.skip(3), b.skip(3));
        assert(a =~= seq![a[0], a[1], a[2]] + a.skip(3));
        assert(b =~= seq![b[0], b[1], b[2]] + b.skip(3));
    } else {
        assert(a.len() == b.len());
        assert(a =~= b);
    }
}

/// The size check never refuses a payload that the cap admits: the padded
/// encoding of 1 to `max_bytes` bytes is accepted.
pub proof fn lemma_payload_within_cap_accepted(d: Seq<u8>, max_bytes: nat)
    requires
        0 < d.len() <= max_bytes,
    ensures
        payload_refusal(base64_encode(d), max_bytes) is None,
{
    lemma_base64_len(d);
    let e = base64_encode(d);
    assert(is_base64(e));
    let k = (d.len() + 2) / 3;
    assert(e.len() / 4 == k);
    assert(3 * k <= d.len() + 2);
}

/// Decodes a base64 payload, refusing an empty one, one whose text cannot
/// decode to at most `max_bytes` bytes, one that is not a padded standard
/// encoding, and one that decodes to nothing or to more than `max_bytes`.
pub fn decode_base64_payload(data_base64: &str, max_bytes: usize) -> (r: Result<Vec<u8>, SaveError>)
    ensures
        match r {
            Ok(v) => payload_refusal(data_base64.spec_bytes(), max_bytes as nat) is None
                && base64_encode(v@) == data_base64.spec_bytes(),
            Err(e) => payload_refusal(data_base64.spec_bytes(), max_bytes as nat) == Some(e),
        },
        r is Ok ==> 0 < r->Ok_0@.len() <= max_bytes,
{
    let bytes = data_base64.as_bytes();
    let n = bytes.len();
    if n == 0 || exceeds_cap(n, max_bytes) {
        return settle_payload(n, None, max_bytes);
    }
    let decoded = match base64_standard_decode(bytes) {
        Ok(v) => {
            proof {
                lemma_base64_len(v@);
            }
            Some(v)
        },
        Err(_) => None,
    };
    settle_payload(n, decoded, max_bytes)
}

// ---------------------------------------------------------------------------
// Image formats by signature, MIME type and name
// ---------------------------------------------------------------------------

pub open spec fn starts_with_bytes(data: Seq<u8>, prefix: Seq<u8>) -> bool {
    prefix.len() <= data.len() && data.take(prefix.len() as int) == prefix
}

pub open spec fn png_magic() -> Seq<u8> {
    seq![0x89u8, 0x50u8, 0x4Eu8, 0x47u8, 0x0Du8, 0x0Au8, 0x1Au8, 0x0Au8]
}

pub open spec fn jpg_magic() -> Seq<u8> {
    seq![0xFFu8, 0xD8u8, 0xFFu8]
}

/// `GIF87a`
pub open spec fn gif87_magic() -> Seq<u8> {
    seq![0x47u8, 0x49u8, 0x46u8, 0x38u8, 0x37u8, 0x61u8]
}

/// `GIF89a`
pub open spec fn gif89_magic() -> Seq<u8> {
    seq![0x47u8, 0x49u8, 0x46u8, 0x38u8, 0x39u8, 0x61u8]
}

/// `RIFF`
pub open spec fn riff_magic() -> Seq<u8> {
    seq![0x52u8, 0x49u8, 0x46u8, 0x46u8]
}

/// `WEBP`
pub open spec fn webp_magic() -> Seq<u8> {
    seq![0x57u8, 0x45u8, 0x42u8, 0x50u8]
}

/// `BM`
pub open spec fn bmp_magic() -> Seq<u8> {
    seq![0x42u8, 0x4Du8]
}

pub open spec fn ico_magic() -> Seq<u8> {
    seq![0x00u8, 0x00u8, 0x01u8, 0x00u8]
}

/// The image format that the leading bytes of `data` announce.
pub open spec fn sniffed_extension(data: Seq<u8>) -> Option<Seq<char>> {
    if starts_with_bytes(data, png_magic()) {
        Some("png"@)
    } else if starts_with_bytes(data, jpg_magic()) {
        Some("jpg"@)
    } else if starts_with_bytes(data, gif87_magic()) || starts_with_bytes(data, gif89_magic()) {
        Some("gif"@)
    } else if data.len() >= 12 && data.subrange(0, 4) == riff_magic() && data.subrange(8, 12)
        == webp_magic() {
        Some("webp"@)
    } else if starts_with_bytes(data, bmp_magic()) {
        Some("bmp"@)
    } else if starts_with_bytes(data, ico_magic()) {
        Some("ico"@)
    } else {
        None
    }
}

/// The leading bytes that announce each image format: `89 50 4E 47 0D 0A
/// 1A 0A` PNG, `FF D8 FF` JPEG, `GIF87a` or `GIF89a` GIF, `RIFF` then four
/// bytes then `WEBP` WebP, `BM` bitmap, `00 00 01 00` icon (checked in that
/// order); data whose first byte starts none of them announces nothing.
pub proof fn lemma_sniffed_signatures(d: Seq<u8>)
    ensures
        d.len() >= 8 && d[0] == 137 && d[1] == 80 && d[2] == 78 && d[3] == 71 && d[4] == 13 && d[5]
            == 10 && d[6] == 26 && d[7] == 10 ==> sniffed_extension(d) == Some("png"@),
        d.len() >= 3 && d[0] == 255 && d[1] == 216 && d[2] == 255 ==> sniffed_extension(d) == Some(
            "jpg"@,
        ),
        d.len() >= 6 && d[0] == 71 && d[1] == 73 && d[2] == 70 && d[3] == 56 && (d[4] == 55 || d[4]
            == 57) && d[5] == 97 ==> sniffed_extension(d) == Some("gif"@),
        d.len() >= 12 && d[0] == 82 && d[1] == 73 && d[2] == 70 && d[3] == 70 && d[8] == 87 && d[9]
            == 69 && d[10] == 66 && d[11] == 80 ==> sniffed_extension(d) == Some("webp"@),
        d.len() >= 2 && d[0] == 66 && d[1] == 77 ==> sniffed_extension(d) == Some("bmp"@),
        d.len() >= 4 && d[0] == 0 && d[1] == 0 && d[2] == 1 && d[3] == 0 ==> sniffed_extension(d)
            == Some("ico"@),
        d.len() == 0 || !(d[0] == 137 || d[0] == 255 || d[0] == 71 || d[0] == 82 || d[0] == 66
            || d[0] == 0) ==> sniffed_extension(d) is None,
{
    if d.len() >= 8 {
        assert(d.take(8) =~= seq![d[0], d[1], d[2], d[3], d[4], d[5], d[6], d[7]]);
    }
    if d.len() >= 6 {
        assert(d.take(6) =~= seq![d[0], d[1], d[2], d[3], d[4], d[5]]);
    }
    if d.len() >= 4 {
        assert(d.take(4) =~= seq![d[0], d[1], d[2], d[3]]);
        assert(d.subrange(0, 4) =~= seq![d[0], d[1], d[2], d[3]]);
    }
    if d.len() >= 12 {
        assert(d.subrange(8, 12) =~= seq![d[8], d[9], d[10], d[11]]);
    }
    if d.len() >= 3 {
        assert(d.take(3) =~= seq![d[0], d[1], d[2]]);
    }
    if d.len() >= 2 {
        assert(d.take(2) =~= seq![d[0], d[1]]);
    }
    if d.len() >= 1 {
        assert(png_magic()[0] == 137 && jpg_magic()[0] == 255 && gif87_magic()[0] == 71
            && gif89_magic()[0] == 71 && riff_magic()[0] == 82 && bmp_magic()[0] == 66
            && ico_magic()[0] == 0);
        assert(forall|k: nat| 1 <= k <= d.len() ==> (#[trigger] d.take(k as int))[0] == d[0]);
        assert(d.subrange(0, 4)[0] == d[0] || d.len() < 4);
    }
}

fn starts_with_at(data: &[u8], at: usize, prefix: &[u8]) -> (b: bool)
    ensures
        b == (at + prefix@.len() <= data@.len() && data@.subrange(
            at as int,
            at + prefix@.len(),
        ) == prefix@),
{
    if prefix.len() > data.len() || at > data.len() - prefix.len() {
        return false;
    }
    let mut i: usize = 0;
    while i < prefix.len()
        invariant
            at + prefix@.len() <= data@.len(),
            i <= prefix@.len(),
            forall|k: int| 0 <= k < i ==> data@[at + k] == prefix@[k],
        decreases prefix@.len() - i,
    {
        assert(at + i < data@.len());
        assert(data@.len() == data.len());
        if data[at + i] != prefix[i] {
            assert(data@.subrange(at as int, at + prefix@.len())[i as int] != prefix@[i as int]);
            return false;
        }
        i = i + 1;
    }
    assert(data@.subrange(at as int, at + prefix@.len()) =~= prefix@);
    true
}

/// The image format announced by the leading bytes of `data`, if any.
pub fn sniff_extension(data: &[u8]) -> (r: Option<&'static str>)
    ensures
        opt_str_view(r) == sniffed_extension(data@),
{
    let png: [u8; 8] = [0x89, 0x50, 0x4E, 0x47, 0x0D, 0x0A, 0x1A, 0x0A];
    let jpg: [u8; 3] = [0xFF, 0xD8, 0xFF];
    let gif87: [u8; 6] = [0x47, 0x49, 0x46, 0x38, 0x37, 0x61];
    let gif89: [u8; 6] = [0x47, 0x49, 0x46, 0x38, 0x39, 0x61];
    let riff: [u8; 4] = [0x52, 0x49, 0x46, 0x46];
    let webp: [u8; 4] = [0x57, 0x45, 0x42, 0x50];
    let bmp: [u8; 2] = [0x42, 0x4D];
    let ico: [u8; 4] = [0x00, 0x00, 0x01, 0x00];
    assert(png@ =~= png_magic());
    assert(jpg@ =~= jpg_magic());
    assert(gif87@ =~= gif87_magic());
    assert(gif89@ =~= gif89_magic());
    assert(riff@ =~= riff_magic());
    assert(webp@ =~= webp_magic());
    assert(bmp@ =~= bmp_magic());
    assert(ico@ =~= ico_magic());
    assert(forall|p: Seq<u8>| p.len() <= data@.len() ==> data@.subrange(0, p.len() as int) =~= data@.take(p.len() as int));
    if starts_with_at(data, 0, &png) {
        return Some("png");
    }
    if starts_with_at(data, 0, &jpg) {
        return Some("jpg");
    }
    if starts_with_at(data, 0, &gif87) || starts_with_at(data, 0, &gif89) {
        return Some("gif");
    }
    if data.len() >= 12 && starts_with_at(data, 0, &riff) && starts_with_at(data, 8, &webp) {
        return Some("webp");
    }
    if starts_with_at(data, 0, &bmp) {
        return Some("bmp");
    }
    if starts_with_at(data, 0, &ico) {
        return Some("ico");
    }
    None
}

/// The image extension of a lower-cased MIME essence (`type/subtype`).
pub open spec fn mime_table(m: Seq<char>) -> Option<Seq<char>> {
    if m == "image/png"@ {
        Some("png"@)
    } else if m == "image/jpeg"@ || m == "image/jpg"@ || m == "image/pjpeg"@ {
        Some("jpg"@)
    } else if m == "image/gif"@ {
        Some("gif"@)
    } else if m == "image/webp"@ {
        Some("webp"@)
    } else if m == "image/bmp"@ || m == "image/x-ms-bmp"@ {
        Some("bmp"@)
    } else if m == "image/svg+xml"@ {
        Some("svg"@)
    } else if m == "image/tiff"@ {
        Some("tiff"@)
    } else if m == "image/avif"@ {
        Some("avif"@)
    } else if m == "image/x-icon"@ || m == "image/vnd.microsoft.icon"@ {
        Some("ico"@)
    } else {
        None
    }
}

/// The MIME essence of a `Content-Type` value: what precedes the first `;`,
/// without surrounding whitespace, ASCII-lower-cased.
pub open spec fn mime_essence(mime: Seq<char>) -> Seq<char> {
    lower_seq(trim_ws(before_first(mime, ';')))
}

pub open spec fn mime_extension(mime: Seq<char>) -> Option<Seq<char>> {
    mime_table(mime_essence(mime))
}

/// The image extension for a MIME type, ignoring its parameters and case.
pub fn extension_for_mime(mime: &str) -> (r: Option<&'static str>)
    ensures
        opt_str_view(r) == mime_extension(mime@),
{
    let v = chars_of(mime);
    let head = chars_before_first(&v, ';');
    let trimmed = trim_chars(&head, TrimSet::Whitespace);
    let m = lower_chars(&trimmed);
    if chars_eq_str(&m, "image/png") {
        Some("png")
    } else if chars_eq_str(&m, "image/jpeg") || chars_eq_str(&m, "image/jpg") || chars_eq_str(
        &m,
        "image/pjpeg",
    ) {
        Some("jpg")
    } else if chars_eq_str(&m, "image/gif") {
        Some("gif")
    } else if chars_eq_str(&m, "image/webp") {
        Some("webp")
    } else if chars_eq_str(&m, "image/bmp") || chars_eq_str(&m, "image/x-ms-bmp") {
        Some("bmp")
    } else if chars_eq_str(&m, "image/svg+xml") {
        Some("svg")
    } else if chars_eq_str(&m, "image/tiff") {
        Some("tiff")
    } else if chars_eq_str(&m, "image/avif") {
        Some("avif")
    } else if chars_eq_str(&m, "image/x-icon") || chars_eq_str(&m, "image/vnd.microsoft.icon") {
        Some("ico")
    } else {
        None
    }
}

/// The MIME types an image is recognised by, in lower case and without
/// parameters, and the extension saved for each: `image/png`; `image/jpeg`,
/// `image/jpg` and `image/pjpeg` as `jpg`; `image/gif`; `image/webp`;
/// `image/bmp` and `image/x-ms-bmp` as `bmp`; `image/svg+xml` as `svg`;
/// `image/tiff`; `image/avif`; `image/x-icon` and `image/vnd.microsoft.icon`
/// as `ico`. No other type is recognised.
pub proof fn lemma_mime_table(m: Seq<char>)
    ensures
        mime_table("image/png"@) == Some("png"@),
        mime_table("image/jpeg"@) == Some("jpg"@),
        mime_table("image/jpg"@) == Some("jpg"@),
        mime_table("image/pjpeg"@) == Some("jpg"@),
        mime_table("image/gif"@) == Some("gif"@),
        mime_table("image/webp"@) == Some("webp"@),
        mime_table("image/bmp"@) == Some("bmp"@),
        mime_table("image/x-ms-bmp"@) == Some("bmp"@),
        mime_table("image/svg+xml"@) == Some("svg"@),
        mime_table("image/tiff"@) == Some("tiff"@),
        mime_table("image/avif"@) == Some("avif"@),
        mime_table("image/x-icon"@) == Some("ico"@),
        mime_table("image/vnd.microsoft.icon"@) == Some("ico"@),
        mime_table(m) is Some ==> m == "image/png"@ || m == "image/jpeg"@ || m == "image/jpg"@ || m == "image/pjpeg"@ || m == "image/gif"@ || m == "image/webp"@ || m == "image/bmp"@ || m == "image/x-ms-bmp"@ || m == "image/svg+xml"@ || m == "image/tiff"@ || m == "image/avif"@ || m == "image/x-icon"@ || m == "image/vnd.microsoft.icon"@,
{
    reveal_strlit("image/png");
    reveal_strlit("image/jpeg");
    reveal_strlit("image/jpg");
    reveal_strlit("image/pjpeg");
    reveal_strlit("image/gif");
    reveal_strlit("image/webp");
    reveal_strlit("image/bmp");
    reveal_strlit("image/x-ms-bmp");
    reveal_strlit("image/svg+xml");
    reveal_strlit("image/tiff");
    reveal_strlit("image/avif");
    reveal_strlit("image/x-icon");
    reveal_strlit("image/vnd.microsoft.icon");
    reveal_strlit("avif");
    reveal_strlit("bmp");
    reveal_strlit("gif");
    reveal_strlit("ico");
    reveal_strlit("jpg");
    reveal_strlit("png");
    reveal_strlit("svg");
    reveal_strlit("tiff");
    reveal_strlit("webp");
    assert("image/png"@.len() == 9 && "image/png"@[6] == 'p' && "image/png"@[7] == 'n' && "image/png"@[8] == 'g');
    assert("image/jpeg"@.len() == 10 && "image/jpeg"@[6] == 'j' && "image/jpeg"@[7] == 'p' && "image/jpeg"@[8] == 'e');
    assert("image/jpg"@.len() == 9 && "image/jpg"@[6] == 'j' && "image/jpg"@[7] == 'p' && "image/jpg"@[8] == 'g');
    assert("image/pjpeg"@.len() == 11 && "image/pjpeg"@[6] == 'p' && "image/pjpeg"@[7] == 'j' && "image/pjpeg"@[8] == 'p');
    assert("image/gif"@.len() == 9 && "image/gif"@[6] == 'g' && "image/gif"@[7] == 'i' && "image/gif"@[8] == 'f');
    assert("image/webp"@.len() == 10 && "image/webp"@[6] == 'w' && "image/webp"@[7] == 'e' && "image/webp"@[8] == 'b');
    assert("image/bmp"@.len() == 9 && "image/bmp"@[6] == 'b' && "image/bmp"@[7] == 'm' && "image/bmp"@[8] == 'p');
    assert("image/x-ms-bmp"@.len() == 14 && "image/x-ms-bmp"@[6] == 'x' && "image/x-ms-bmp"@[7] == '-' && "image/x-ms-bmp"@[8] == 'm');
    assert("image/svg+xml"@.len() == 13 && "image/svg+xml"@[6] == 's' && "image/svg+xml"@[7] == 'v' && "image/svg+xml"@[8] == 'g');
    assert("image/tiff"@.len() == 10 && "image/tiff"@[6] == 't' && "image/tiff"@[7] == 'i' && "image/tiff"@[8] == 'f');
    assert("image/avif"@.len() == 10 && "image/avif"@[6] == 'a' && "image/avif"@[7] == 'v' && "image/avif"@[8] == 'i');
    assert("image/x-icon"@.len() == 12 && "image/x-icon"@[6] == 'x' && "image/x-icon"@[7] == '-' && "image/x-icon"@[8] == 'i');
    assert("image/vnd.microsoft.icon"@.len() == 24 && "image/vnd.microsoft.icon"@[6] == 'v' && "image/vnd.microsoft.icon"@[7] == 'n' && "image/vnd.microsoft.icon"@[8] == 'd');
}

/// A `Content-Type` value is read up to its first `;`: parameters never
/// change the extension chosen.
pub proof fn lemma_mime_parameters_ignored(a: Seq<char>, b: Seq<char>)
    requires
        forall|i: int| 0 <= i < a.len() ==> a[i] != ';',
    ensures
        mime_extension(a + seq![';'] + b) == mime_extension(a),
{
    let s = a + seq![';'] + b;
    assert forall|k: int| 0 <= k < a.len() implies #[trigger] s[k] != ';' by {
        assert(s[k] == a[k]);
    }
    crate::text::lemma_first_index_of(s, ';', a.len() as int);
    crate::text::lemma_first_index_of(a, ';', a.len() as int);
    assert(before_first(s, ';') =~= a);
    assert(before_first(a, ';') =~= a);
}

/// The image extension of a lower-cased file-name extension.
pub open spec fn suffix_table(e: Seq<char>) -> Option<Seq<char>> {
    if e == "png"@ {
        Some("png"@)
    } else if e == "jpg"@ || e == "jpeg"@ {
        Some("jpg"@)
    } else if e == "gif"@ {
        Some("gif"@)
    } else if e == "webp"@ {
        Some("webp"@)
    } else if e == "bmp"@ {
        Some("bmp"@)
    } else if e == "svg"@ {
        Some("svg"@)
    } else if e == "tif"@ || e == "tiff"@ {
        Some("tiff"@)
    } else if e == "avif"@ {
        Some("avif"@)
    } else if e == "ico"@ {
        Some("ico"@)
    } else {
        None
    }
}

/// The file-name extensions an image is recognised by, in lower case, and
/// the extension saved for each: `png`; `jpg` and `jpeg` as `jpg`; `gif`;
/// `webp`; `bmp`; `svg`; `tif` and `tiff` as `tiff`; `avif`; `ico`. No other
/// extension is recognised.
pub proof fn lemma_suffix_table(e: Seq<char>)
    ensures
        suffix_table("png"@) == Some("png"@),
        suffix_table("jpg"@) == Some("jpg"@),
        suffix_table("jpeg"@) == Some("jpg"@),
        suffix_table("gif"@) == Some("gif"@),
        suffix_table("webp"@) == Some("webp"@),
        suffix_table("bmp"@) == Some("bmp"@),
        suffix_table("svg"@) == Some("svg"@),
        suffix_table("tif"@) == Some("tiff"@),
        suffix_table("tiff"@) == Some("tiff"@),
        suffix_table("avif"@) == Some("avif"@),
        suffix_table("ico"@) == Some("ico"@),
        suffix_table(e) is Some ==> e == "png"@ || e == "jpg"@ || e == "jpeg"@ || e == "gif"@ || e
            == "webp"@ || e == "bmp"@ || e == "svg"@ || e == "tif"@ || e == "tiff"@ || e == "avif"@
            || e == "ico"@,
{
    reveal_strlit("png");
    reveal_strlit("jpg");
    reveal_strlit("jpeg");
    reveal_strlit("gif");
    reveal_strlit("webp");
    reveal_strlit("bmp");
    reveal_strlit("svg");
    reveal_strlit("tif");
    reveal_strlit("tiff");
    reveal_strlit("avif");
    reveal_strlit("ico");
    assert("png"@.len() == 3 && "png"@[0] == 'p');
    assert("jpg"@.len() == 3 && "jpg"@[0] == 'j');
    assert("jpeg"@.len() == 4 && "jpeg"@[0] == 'j');
    assert("gif"@.len() == 3 && "gif"@[0] == 'g');
    assert("webp"@.len() == 4 && "webp"@[0] == 'w');
    assert("bmp"@.len() == 3 && "bmp"@[0] == 'b');
    assert("svg"@.len() == 3 && "svg"@[0] == 's');
    assert("tif"@.len() == 3 && "tif"@[0] == 't');
    assert("tiff"@.len() == 4 && "tiff"@[0] == 't');
    assert("avif"@.len() == 4 && "avif"@[0] == 'a');
    assert("ico"@.len() == 3 && "ico"@[0] == 'i');
}

/// The image extension named by a file-name extension, in any case.
pub open spec fn suffix_image_extension(ext: Option<Seq<char>>) -> Option<Seq<char>> {
    match ext {
        Some(e) => suffix_table(lower_seq(e)),
        None => None,
    }
}

/// The image extension that a file-name extension names, in any case.
pub fn image_extension_for_suffix(ext: &str) -> (r: Option<&'static str>)
    ensures
        opt_str_view(r) == suffix_table(lower_seq(ext@)),
{
    let v = chars_of(ext);
    let e = lower_chars(&v);
    if chars_eq_str(&e, "png") {
        Some("png")
    } else if chars_eq_str(&e, "jpg") || chars_eq_str(&e, "jpeg") {
        Some("jpg")
    } else if chars_eq_str(&e, "gif") {
        Some("gif")
    } else if chars_eq_str(&e, "webp") {
        Some("webp")
    } else if chars_eq_str(&e, "bmp") {
        Some("bmp")
    } else if chars_eq_str(&e, "svg") {
        Some("svg")
    } else if chars_eq_str(&e, "tif") || chars_eq_str(&e, "tiff") {
        Some("tiff")
    } else if chars_eq_str(&e, "avif") {
        Some("avif")
    } else if chars_eq_str(&e, "ico") {
        Some("ico")
    } else {
        None
    }
}

// ---------------------------------------------------------------------------
// File stems and extensions of caller-supplied names
// ---------------------------------------------------------------------------

/// A name whose path components every platform finds by splitting at `/`
/// alone: it holds no `\\` (a separator on Windows), no `:` (which can start
/// a drive prefix there) and does not start with `//` (a network prefix there).
pub open spec fn plain_path(s: Seq<char>) -> bool {
    &&& forall|i: int| 0 <= i < s.len() ==> s[i] != '\\' && s[i] != ':'
    &&& !(s.len() >= 2 && s[0] == '/' && s[1] == '/')
}

/// The index of the last `/` in `s`, or -1.
pub open spec fn last_slash(s: Seq<char>) -> int
    decreases s.len(),
{
    if s.len() == 0 {
        -1
    } else if s.last() == '/' {
        s.len() - 1
    } else {
        last_slash(s.drop_last())
    }
}

/// Where the last `/` of `s` lies.
pub proof fn lemma_last_slash_bounds(s: Seq<char>)
    ensures
        -1 <= last_slash(s) < s.len(),
        last_slash(s) >= 0 ==> s[last_slash(s)] == '/',
        forall|j: int| last_slash(s) < j < s.len() ==> s[j] != '/',
    decreases s.len(),
{
    if s.len() > 0 && s.last() != '/' {
        lemma_last_slash_bounds(s.drop_last());
        assert forall|j: int| last_slash(s) < j < s.len() implies s[j] != '/' by {
            if j < s.len() - 1 {
                assert(s[j] == s.drop_last()[j]);
            }
        }
    }
}

/// The final component of a `/`-separated path, as `Path::file_name`
/// documents it: trailing `/` and `.` components are ignored, and there is
/// none when the path is empty, a root, `.`, or ends in `..`.
pub open spec fn final_component(s: Seq<char>) -> Option<Seq<char>>
    decreases s.len(),
{
    if s.len() == 0 {
        None
    } else if s.last() == '/' {
        final_component(s.drop_last())
    } else {
        let i = last_slash(s);
        let tail = s.skip(i + 1);
        if tail == seq!['.'] {
            if i < 0 {
                None
            } else {
                proof {
                    lemma_last_slash_bounds(s);
                }
                final_component(s.take(i))
            }
        } else if tail == seq!['.', '.'] {
            None
        } else {
            Some(tail)
        }
    }
}

/// `Path::file_stem` of a path whose components are split at `/`.
pub open spec fn final_stem(s: Seq<char>) -> Option<Seq<char>> {
    match final_component(s) {
        Some(n) => documented_file_stem(n),
        None => None,
    }
}

/// `Path::extension` of a path whose components are split at `/`.
pub open spec fn final_extension(s: Seq<char>) -> Option<Seq<char>> {
    match final_component(s) {
        Some(n) => documented_extension(n),
        None => None,
    }
}

/// The index of the last `.` in `s`, or -1.
pub open spec fn last_dot(s: Seq<char>) -> int
    decreases s.len(),
{
    if s.len() == 0 {
        -1
    } else if s.last() == '.' {
        s.len() - 1
    } else {
        last_dot(s.drop_last())
    }
}

/// Whether `s` names no file: empty, `.` or `..`.
pub open spec fn names_no_file(s: Seq<char>) -> bool {
    s.len() == 0 || s =~= seq!['.'] || s =~= seq!['.', '.']
}

/// The stem of a file name, as `Path::file_stem` documents it: the
/// whole name when it has no `.` but possibly a leading one, otherwise what
/// precedes the final `.`.
pub open spec fn documented_file_stem(s: Seq<char>) -> Option<Seq<char>> {
    if names_no_file(s) {
        None
    } else if last_dot(s) <= 0 {
        Some(s)
    } else {
        Some(s.take(last_dot(s)))
    }
}

/// The extension of a file name, as `Path::extension` documents it: what
/// follows the final `.`, unless the name has no `.` but possibly a leading one.
pub open spec fn documented_extension(s: Seq<char>) -> Option<Seq<char>> {
    if names_no_file(s) {
        None
    } else if last_dot(s) <= 0 {
        None
    } else {
        Some(s.skip(last_dot(s) + 1))
    }
}

/// Calls `Path::file_stem` on `name`. For a name that every platform
/// splits at `/` alone, the result is the stem of its final component, as
/// std documents it; for a name holding `\\` or `:`, or starting with `//`,
/// the platform decides the components, and nothing is claimed.
#[verifier::external_body]
fn path_file_stem(name: &str) -> (r: Option<String>)
    ensures
        plain_path(name@) ==> opt_string_view(r) == final_stem(name@),
{
    let stem = std::path::Path::new(name).file_stem()?;
    stem.to_str().map(str::to_owned)
}

/// Calls `Path::extension` on `name`. For a name that every platform
/// splits at `/` alone, the result is the extension of its final component,
/// as std documents it; for a name holding `\\` or `:`, or starting with
/// `//`, the platform decides the components, and nothing is claimed.
#[verifier::external_body]
fn path_extension(name: &str) -> (r: Option<String>)
    ensures
        plain_path(name@) ==> opt_string_view(r) == final_extension(name@),
{
    let ext = std::path::Path::new(name).extension()?;
    ext.to_str().map(str::to_owned)
}

/// The image extension taken from a caller-supplied name.
pub fn extension_from_name(filename: &str) -> (r: Option<&'static str>)
    ensures
        exists|ext: Option<Seq<char>>|
            #![trigger suffix_image_extension(ext)]
            opt_str_view(r) == suffix_image_extension(ext) && (plain_path(filename@)
                ==> ext == final_extension(filename@)),
{
    let ext = path_extension(filename);
    match ext {
        Some(e) => {
            let r = image_extension_for_suffix(e.as_str());
            assert(opt_str_view(r) == suffix_image_extension(Some(e@)));
            r
        },
        None => {
            assert(suffix_image_extension(None) is None);
            None
        },
    }
}

/// The extension for an image: from its bytes first, then its MIME type,
/// then the extension named by `name_ext`, and `png` when none applies.
pub open spec fn chosen_image_extension(data: Seq<u8>, mime: Seq<char>, name_ext: Option<Seq<char>>) -> Seq<char> {
    match sniffed_extension(data) {
        Some(e) => e,
        None => match mime_extension(mime) {
            Some(e) => e,
            None => match suffix_image_extension(name_ext) {
                Some(e) => e,
                None => "png"@,
            },
        },
    }
}

/// Picks an image extension from the bytes, then the MIME type, then the
/// caller-supplied name, defaulting to `png`.
pub fn image_extension(data: &[u8], mime: &str, filename: &str) -> (r: &'static str)
    ensures
        exists|ext: Option<Seq<char>>|
            #![trigger suffix_image_extension(ext)]
            r@ == chosen_image_extension(data@, mime@, ext) && (plain_path(filename@)
                ==> ext == final_extension(filename@)),
{
    let ghost w = final_extension(filename@);
    let sniffed = sniff_extension(data);
    if let Some(e) = sniffed {
        assert(e@ == chosen_image_extension(data@, mime@, w) && suffix_image_extension(w)
            == suffix_image_extension(w));
        return e;
    }
    let by_mime = extension_for_mime(mime);
    if let Some(e) = by_mime {
        assert(e@ == chosen_image_extension(data@, mime@, w) && suffix_image_extension(w)
            == suffix_image_extension(w));
        return e;
    }
    let by_name = extension_from_name(filename);
    let ghost named = choose|ext: Option<Seq<char>>|
        #![trigger suffix_image_extension(ext)]
        opt_str_view(by_name) == suffix_image_extension(ext) && (plain_path(filename@)
            ==> ext == final_extension(filename@));
    let r = match by_name {
        Some(e) => e,
        None => "png",
    };
    assert(r@ == chosen_image_extension(data@, mime@, named));
    r
}

// ---------------------------------------------------------------------------
// Stems
// ---------------------------------------------------------------------------

/// A character that may stay in a stem: alphanumeric, `-`, `_`, space or `.`.
pub open spec fn is_stem_char(c: char) -> bool {
    char_alphanumeric(c) || c == '-' || c == '_' || c == ' ' || c == '.'
}

/// Every character that may not stay in a stem becomes `_`.
pub open spec fn stem_char(c: char) -> char {
    if is_stem_char(c) {
        c
    } else {
        '_'
    }
}

/// The maximal runs of non-whitespace characters of `s`, in order
/// (`str::split_whitespace`).
pub open spec fn words(s: Seq<char>) -> Seq<Seq<char>>
    decreases s.len(),
{
    if s.len() == 0 {
        Seq::empty()
    } else {
        let w = words(s.drop_last());
        let c = s.last();
        if spec_char_is_whitespace(c) {
            w
        } else if s.len() >= 2 && !spec_char_is_whitespace(s[s.len() - 2]) {
            w.update(w.len() - 1, w.last().push(c))
        } else {
            w.push(seq![c])
        }
    }
}

/// The words joined by single spaces.
pub open spec fn join_words(ws: Seq<Seq<char>>) -> Seq<char>
    decreases ws.len(),
{
    if ws.len() == 0 {
        Seq::empty()
    } else if ws.len() == 1 {
        ws[0]
    } else {
        join_words(ws.drop_last()).push(' ') + ws.last()
    }
}

/// `split_whitespace` followed by `join(" ")`.
pub open spec fn collapse_whitespace(s: Seq<char>) -> Seq<char> {
    join_words(words(s))
}

/// The longest stem kept.
pub open spec fn stem_limit() -> nat {
    80
}

/// The stem derived from the raw stem of a name: disallowed characters
/// become `_`, whitespace runs collapse to one space, `.`, `_` and space are
/// trimmed from both ends, at most 80 characters are kept, and `default`
/// stands in when nothing is left.
pub open spec fn sanitized_stem(raw: Seq<char>, default: Seq<char>) -> Seq<char> {
    let trimmed = trim_by(
        collapse_whitespace(raw.map_values(|c: char| stem_char(c))),
        trim_pred(TrimSet::StemEdge),
    );
    if trimmed.len() == 0 {
        default
    } else if trimmed.len() <= stem_limit() {
        trimmed
    } else {
        trimmed.take(stem_limit() as int)
    }
}

proof fn lemma_join_push(ws: Seq<Seq<char>>, x: Seq<char>)
    ensures
        join_words(ws.push(x)) == if ws.len() == 0 {
            x
        } else {
            join_words(ws).push(' ') + x
        },
{
    assert(ws.push(x).drop_last() =~= ws);
    if ws.len() == 0 {
        assert(ws.push(x).len() == 1);
    }
}

proof fn lemma_join_extend_last(ws: Seq<Seq<char>>, c: char)
    requires
        ws.len() >= 1,
    ensures
        join_words(ws.update(ws.len() - 1, ws.last().push(c))) == join_words(ws).push(c),
{
    let ws2 = ws.update(ws.len() - 1, ws.last().push(c));
    if ws.len() == 1 {
        assert(join_words(ws2) == ws2[0]);
    } else {
        assert(ws2.drop_last() =~= ws.drop_last());
        assert(join_words(ws2) == join_words(ws2.drop_last()).push(' ') + ws2.last());
        assert(join_words(ws2) =~= join_words(ws).push(c));
    }
}

/// Collapses every run of whitespace in `v` into one space and drops the
/// runs at both ends.
pub fn collapse_whitespace_chars(v: &Vec<char>) -> (out: Vec<char>)
    ensures
        out@ == collapse_whitespace(v@),
{
    let mut out: Vec<char> = Vec::new();
    let mut in_word = false;
    let mut i: usize = 0;
    while i < v.len()
        invariant
            i <= v@.len(),
            out@ == join_words(words(v@.take(i as int))),
            (words(v@.take(i as int)).len() == 0) == (out@.len() == 0),
            in_word == (i > 0 && !spec_char_is_whitespace(v@[i - 1])),
            in_word ==> words(v@.take(i as int)).len() > 0,
        decreases v@.len() - i,
    {
        let c = v[i];
        let ghost t = v@.take(i + 1);
        let ghost w = words(v@.take(i as int));
        assert(t.drop_last() =~= v@.take(i as int));
        assert(t.last() == c);
        if char_is_whitespace(c) {
            in_word = false;
        } else if in_word {
            assert(t[t.len() - 2] == v@[i - 1]);
            proof {
                lemma_join_extend_last(w, c);
            }
            out.push(c);
            in_word = true;
        } else {
            proof {
                lemma_join_push(w, seq![c]);
            }
            if out.len() > 0 {
                out.push(' ');
            }
            out.push(c);
            assert(out@ =~= join_words(words(t)));
            in_word = true;
        }
        i = i + 1;
    }
    assert(v@.take(v@.len() as int) =~= v@);
    out
}

/// The stem for a raw file stem (`""` when the name has none), falling back
/// to `default` when nothing usable is left.
pub fn clean_stem(raw: &str, default: &str) -> (r: String)
    ensures
        r@ == sanitized_stem(raw@, default@),
{
    let v = chars_of(raw);
    let mut cleaned: Vec<char> = Vec::new();
    let mut i: usize = 0;
    while i < v.len()
        invariant
            v@ == raw@,
            i <= v@.len(),
            cleaned@ == v@.take(i as int).map_values(|c: char| stem_char(c)),
        decreases v@.len() - i,
    {
        let c = v[i];
        let keep = char_is_alphanumeric(c) || c == '-' || c == '_' || c == ' ' || c == '.';
        cleaned.push(if keep { c } else { '_' });
        assert(v@.take(i + 1) =~= v@.take(i as int).push(c));
        assert(cleaned@ =~= v@.take(i + 1).map_values(|c: char| stem_char(c)));
        i = i + 1;
    }
    assert(v@.take(v@.len() as int) =~= v@);
    let collapsed = collapse_whitespace_chars(&cleaned);
    let trimmed = trim_chars(&collapsed, TrimSet::StemEdge);
    if trimmed.len() == 0 {
        default.to_owned()
    } else if trimmed.len() <= 80 {
        string_of(&trimmed)
    } else {
        let r = string_of_range(&trimmed, 0, 80);
        assert(trimmed@.subrange(0, 80) =~= trimmed@.take(80));
        r
    }
}

/// A safe file stem for a caller-supplied name: the name's stem with its
/// directory parts dropped, cleaned as [`clean_stem`] does.
pub fn sanitize_stem(filename: &str, default: &str) -> (r: String)
    ensures
        exists|stem: Option<Seq<char>>|
            #![trigger stem_or_empty(stem)]
            r@ == sanitized_stem(stem_or_empty(stem), default@) && (plain_path(filename@)
                ==> stem == final_stem(filename@)),
{
    let stem = path_file_stem(filename);
    let ghost sv = opt_string_view(stem);
    let r = match stem {
        Some(s) => clean_stem(s.as_str(), default),
        None => clean_stem("", default),
    };
    proof {
        reveal_strlit("");
    }
    assert(r@ == sanitized_stem(stem_or_empty(sv), default@));
    r
}

/// The raw stem, or the empty string when the name has none.
pub open spec fn stem_or_empty(stem: Option<Seq<char>>) -> Seq<char> {
    match stem {
        Some(s) => s,
        None => Seq::empty(),
    }
}

// ---------------------------------------------------------------------------
// Extensions of general files
// ---------------------------------------------------------------------------

/// The ASCII letters and digits of `s`, in order.
pub open spec fn ascii_alnum_only(s: Seq<char>) -> Seq<char>
    decreases s.len(),
{
    if s.len() == 0 {
        s
    } else if is_ascii_alnum(s.last()) {
        ascii_alnum_only(s.drop_last()).push(s.last())
    } else {
        ascii_alnum_only(s.drop_last())
    }
}

/// The longest extension kept.
pub open spec fn extension_limit() -> nat {
    16
}

/// An extension reduced to at most 16 ASCII letters and digits, lower-cased;
/// `None` when none is left.
pub open spec fn cleaned_extension(e: Seq<char>) -> Option<Seq<char>> {
    let k = ascii_alnum_only(e);
    let t = if k.len() <= extension_limit() {
        k
    } else {
        k.take(extension_limit() as int)
    };
    if t.len() == 0 {
        None
    } else {
        Some(lower_seq(t))
    }
}

pub open spec fn general_extension(ext: Option<Seq<char>>) -> Option<Seq<char>> {
    match ext {
        Some(e) => cleaned_extension(e),
        None => None,
    }
}

/// `0-9` or `a-z`.
pub open spec fn is_lower_alnum(c: char) -> bool {
    ('0' <= c && c <= '9') || ('a' <= c && c <= 'z')
}

proof fn lemma_alnum_only_chars(s: Seq<char>)
    ensures
        forall|i: int| 0 <= i < ascii_alnum_only(s).len() ==> is_ascii_alnum(#[trigger] ascii_alnum_only(s)[i]),
    decreases s.len(),
{
    if s.len() > 0 {
        lemma_alnum_only_chars(s.drop_last());
        let prev = ascii_alnum_only(s.drop_last());
        if is_ascii_alnum(s.last()) {
            assert forall|i: int| 0 <= i < prev.push(s.last()).len() implies is_ascii_alnum(
                #[trigger] prev.push(s.last())[i],
            ) by {
                if i < prev.len() {
                    assert(prev.push(s.last())[i] == prev[i]);
                }
            }
        }
    }
}

/// `0-9`, `A-Z` or `a-z`.
pub open spec fn ascii_letter_or_digit(c: char) -> bool {
    ('0' <= c <= '9') || ('A' <= c <= 'Z') || ('a' <= c <= 'z')
}

proof fn lemma_alnum_only_concat(x: Seq<char>, y: Seq<char>)
    ensures
        ascii_alnum_only(x + y) == ascii_alnum_only(x) + ascii_alnum_only(y),
    decreases y.len(),
{
    if y.len() == 0 {
        assert(x + y =~= x);
        assert(ascii_alnum_only(x) + ascii_alnum_only(y) =~= ascii_alnum_only(x));
    } else {
        lemma_alnum_only_concat(x, y.drop_last());
        assert((x + y).drop_last() =~= x + y.drop_last());
        assert((x + y).last() == y.last());
        if is_ascii_alnum(y.last()) {
            assert(ascii_alnum_only(x) + ascii_alnum_only(y) =~= (ascii_alnum_only(x)
                + ascii_alnum_only(y.drop_last())).push(y.last()));
        }
    }
}

proof fn lemma_alnum_only_keeps_all(e: Seq<char>)
    requires
        forall|i: int| 0 <= i < e.len() ==> ascii_letter_or_digit(#[trigger] e[i]),
    ensures
        ascii_alnum_only(e) == e,
    decreases e.len(),
{
    if e.len() > 0 {
        let init = e.drop_last();
        assert forall|i: int| 0 <= i < init.len() implies ascii_letter_or_digit(#[trigger] init[i]) by {
            assert(init[i] == e[i]);
        }
        lemma_alnum_only_keeps_all(init);
        assert(ascii_letter_or_digit(e[e.len() - 1]));
        assert(init.push(e.last()) =~= e);
    }
}

/// An extension made of ASCII letters and digits keeps every one of them,
/// up to the first 16, with `A-Z` turned into `a-z` and everything else as
/// it was.
pub proof fn lemma_clean_extension_keeps_letters_and_digits(e: Seq<char>)
    requires
        e.len() >= 1,
        forall|i: int| 0 <= i < e.len() ==> ascii_letter_or_digit(#[trigger] e[i]),
    ensures
        cleaned_extension(e) matches Some(r) && r.len() == (if e.len() <= 16 { e.len() } else { 16 })
            && forall|i: int|
            0 <= i < r.len() ==> (#[trigger] r[i]) as int == if 'A' <= e[i] <= 'Z' {
                (e[i] as int) + 32
            } else {
                e[i] as int
            },
{
    lemma_alnum_only_keeps_all(e);
    let t = if e.len() <= 16 { e } else { e.take(16) };
    let r = lower_seq(t);
    assert forall|i: int| 0 <= i < r.len() implies (#[trigger] r[i]) as int == if 'A' <= e[i] <= 'Z' {
        (e[i] as int) + 32
    } else {
        e[i] as int
    } by {
        assert(t[i] == e[i]);
    }
}

/// A character other than an ASCII letter or digit never reaches the
/// extension: taking it out of the name's extension changes nothing.
pub proof fn lemma_clean_extension_drops_others(a: Seq<char>, c: char, b: Seq<char>)
    requires
        !ascii_letter_or_digit(c),
    ensures
        cleaned_extension(a + seq![c] + b) == cleaned_extension(a + b),
{
    lemma_alnum_only_concat(a + seq![c], b);
    lemma_alnum_only_concat(a, seq![c]);
    lemma_alnum_only_concat(a, b);
    assert(seq![c].drop_last() =~= Seq::<char>::empty());
    assert(seq![c].last() == c);
    assert(!is_ascii_alnum(c));
    assert(ascii_alnum_only(seq![c]) == ascii_alnum_only(Seq::<char>::empty()));
    assert(ascii_alnum_only(seq![c]) =~= Seq::<char>::empty());
    assert(ascii_alnum_only(a + seq![c]) =~= ascii_alnum_only(a));
}

/// Cleans a file-name extension to short lower-case ASCII alphanumerics.
pub fn clean_extension(ext: &str) -> (r: Option<String>)
    ensures
        opt_string_view(r) == cleaned_extension(ext@),
        r matches Some(e) ==> 1 <= e@.len() <= extension_limit() && forall|i: int|
            0 <= i < e@.len() ==> is_lower_alnum(#[trigger] e@[i]),
{
    let v = chars_of(ext);
    let mut kept: Vec<char> = Vec::new();
    let mut i: usize = 0;
    while i < v.len()
        invariant
            v@ == ext@,
            i <= v@.len(),
            kept@ == ascii_alnum_only(v@.take(i as int)),
        decreases v@.len() - i,
    {
        let c = v[i];
        if ascii_alnum_char(c) {
            kept.push(c);
        }
        assert(v@.take(i + 1).drop_last() =~= v@.take(i as int));
        i = i + 1;
    }
    assert(v@.take(v@.len() as int) =~= v@);
    proof {
        lemma_alnum_only_chars(ext@);
    }
    if kept.len() == 0 {
        return None;
    }
    let n = if kept.len() <= 16 { kept.len() } else { 16 };
    let mut low: Vec<char> = Vec::new();
    let mut j: usize = 0;
    while j < n
        invariant
            n <= kept@.len(),
            j <= n,
            kept@ == ascii_alnum_only(ext@),
            forall|k: int| 0 <= k < kept@.len() ==> is_ascii_alnum(#[trigger] kept@[k]),
            low@ == lower_seq(kept@.take(j as int)),
        decreases n - j,
    {
        low.push(ascii_lower_char(kept[j]));
        assert(kept@.take(j + 1) =~= kept@.take(j as int).push(kept@[j as int]));
        assert(lower_seq(kept@.take(j + 1)) =~= lower_seq(kept@.take(j as int)).push(ascii_lower(kept@[j as int])));
        j = j + 1;
    }
    if kept.len() <= 16 {
        assert(kept@.take(n as int) =~= kept@);
    }
    let r = string_of(&low);
    assert forall|i: int| 0 <= i < r@.len() implies is_lower_alnum(#[trigger] r@[i]) by {
        assert(is_ascii_alnum(kept@[i]));
    }
    Some(r)
}

/// The extension of a general file, from its caller-supplied name only:
/// short lower-case ASCII alphanumerics, or `None` when nothing usable is left.
pub fn file_extension(filename: &str) -> (r: Option<String>)
    ensures
        exists|ext: Option<Seq<char>>|
            #![trigger general_extension(ext)]
            opt_string_view(r) == general_extension(ext) && (plain_path(filename@)
                ==> ext == final_extension(filename@)),
        r matches Some(e) ==> 1 <= e@.len() <= extension_limit() && forall|i: int|
            0 <= i < e@.len() ==> is_lower_alnum(#[trigger] e@[i]),
{
    let ext = path_extension(filename);
    let ghost ev = opt_string_view(ext);
    let r = match ext {
        Some(e) => clean_extension(e.as_str()),
        None => None,
    };
    assert(opt_string_view(r) == general_extension(ev));
    r
}

// ---------------------------------------------------------------------------
// Unique target names
// ---------------------------------------------------------------------------

/// Where a file is saved: a directory and a file name inside it.
pub struct TargetPath {
    pub dir: String,
    pub file_name: String,
}

/// The `n`-th candidate name: `stem.ext` for 0, `stem (n).ext` after it;
/// without an extension there is no trailing dot.
pub open spec fn candidate_name(stem: Seq<char>, ext: Option<Seq<char>>, n: nat) -> Seq<char> {
    let base = if n == 0 {
        stem
    } else {
        stem + seq![' ', '('] + decimal(n) + seq![')']
    };
    match ext {
        Some(e) => base.push('.') + e,
        None => base,
    }
}

/// The largest suffix number tried before giving up.
pub open spec fn max_suffix() -> nat {
    9999
}

/// The `n`-th candidate name for `stem` and `ext`.
pub fn candidate_file_name(stem: &str, ext: Option<&str>, n: u32) -> (r: String)
    ensures
        r@ == candidate_name(stem@, opt_str_view(ext), n as nat),
{
    let mut r = stem.to_owned();
    if n != 0 {
        push_char(&mut r, ' ');
        push_char(&mut r, '(');
        let d = decimal_string(n as u64);
        r.append(d.as_str());
        push_char(&mut r, ')');
    }
    match ext {
        Some(e) => {
            push_char(&mut r, '.');
            r.append(e);
        },
        None => {},
    }
    assert(r@ =~= candidate_name(stem@, opt_str_view(ext), n as nat));
    r
}

/// Whether `dir` joined with `name` names an existing file system entry
/// (`Path::exists`). The answer depends on the disk, so nothing is claimed.
#[verifier::external_body]
fn file_exists_in(dir: &str, name: &str) -> bool {
    std::path::Path::new(dir).join(name).exists()
}

/// What to do after probing the `n`-th candidate.
pub enum CandidateStep {
    /// Use the candidate with this number.
    Take(u32),
    /// Probe the candidate with this number next.
    Probe(u32),
    /// The last candidate is taken too: no name is free.
    Exhausted,
}

/// Decides the search after the `n`-th candidate was found `taken` or free:
/// a free candidate is used, a taken one leads to the next, and when the
/// last one is taken too the search gives up.
pub fn after_probe(n: u32, taken: bool) -> (r: CandidateStep)
    requires
        n <= max_suffix(),
    ensures
        match r {
            CandidateStep::Take(k) => !taken && k == n,
            CandidateStep::Probe(k) => taken && n < max_suffix() && k == n + 1,
            CandidateStep::Exhausted => taken && n == max_suffix(),
        },
{
    if !taken {
        CandidateStep::Take(n)
    } else if n < 9999 {
        CandidateStep::Probe(n + 1)
    } else {
        CandidateStep::Exhausted
    }
}

/// Whether the probe `taken`, asked about a name spelling `name`, answered
/// `answer`.
pub open spec fn probe_said<F: Fn(&str) -> bool>(taken: F, name: Seq<char>, answer: bool) -> bool {
    exists|s: &str| s@ == name && #[trigger] taken.ensures((s,), answer)
}

/// Searches the candidates `stem.ext`, `stem (1).ext`, ..., `stem (9999).ext`
/// in order, asking `taken` about each, and returns the first one that
/// `taken` found free; `None` when it found every one taken. Every
/// candidate before the returned one was asked about and found taken.
pub fn first_free_candidate<F: Fn(&str) -> bool>(stem: &str, ext: Option<&str>, taken: F) -> (r:
    Option<String>)
    requires
        forall|s: &str| taken.requires((s,)),
    ensures
        match r {
            Some(name) => exists|n: nat|
                n <= 9999 && name@ == #[trigger] candidate_name(stem@, opt_str_view(ext), n)
                    && probe_said(taken, name@, false) && forall|m: nat|
                    m < n ==> probe_said(taken, #[trigger] candidate_name(stem@, opt_str_view(ext), m), true),
            None => forall|m: nat|
                m <= 9999 ==> probe_said(taken, #[trigger] candidate_name(stem@, opt_str_view(ext), m), true),
        },
{
    let mut n: u32 = 0;
    loop
        invariant
            n <= max_suffix(),
            forall|s: &str| taken.requires((s,)),
            forall|m: nat| m < n ==> probe_said(taken, #[trigger] candidate_name(stem@, opt_str_view(ext), m), true),
        decreases max_suffix() - n,
    {
        let candidate = candidate_file_name(stem, ext, n);
        let answer = taken(candidate.as_str());
        assert(probe_said(taken, candidate@, answer));
        match after_probe(n, answer) {
            CandidateStep::Take(k) => {
                assert(candidate@ == candidate_name(stem@, opt_str_view(ext), k as nat));
                return Some(candidate);
            },
            CandidateStep::Probe(k) => {
                n = k;
            },
            CandidateStep::Exhausted => {
                return None;
            },
        }
    }
}

/// A target in `dir` that does not overwrite an existing file: the first of
/// `stem.ext`, `stem (1).ext`, ..., `stem (9999).ext` that the file system
/// reports free, or `NoFreeName` when all of them are taken; the search is
/// [`first_free_candidate`] with the file system as the probe.
pub fn unique_path(dir: &str, stem: &str, ext: Option<&str>) -> (r: Result<TargetPath, SaveError>)
    ensures
        match r {
            Ok(t) => t.dir@ == dir@ && exists|n: nat|
                n <= max_suffix() && t.file_name@ == #[trigger] candidate_name(stem@, opt_str_view(ext), n),
            Err(e) => e == SaveError::NoFreeName,
        },
{
    let probe = |name: &str| -> (b: bool) { file_exists_in(dir, name) };
    match first_free_candidate(stem, ext, probe) {
        Some(file_name) => Ok(TargetPath { dir: dir.to_owned(), file_name }),
        None => Err(SaveError::NoFreeName),
    }
}

// ---------------------------------------------------------------------------
// Laws of the naming functions
// ---------------------------------------------------------------------------

proof fn lemma_words_chars(s: Seq<char>, p: spec_fn(char) -> bool)
    requires
        forall|i: int| 0 <= i < s.len() ==> p(#[trigger] s[i]),
    ensures
        forall|k: int, j: int|
            0 <= k < words(s).len() && 0 <= j < words(s)[k].len() ==> p(#[trigger] words(s)[k][j]),
    decreases s.len(),
{
    if s.len() > 0 {
        lemma_words_chars(s.drop_last(), p);
        let w = words(s.drop_last());
        let c = s.last();
        assert(p(c));
        if spec_char_is_whitespace(c) {
        } else if s.len() >= 2 && !spec_char_is_whitespace(s[s.len() - 2]) {
            lemma_words_end_in_word(s.drop_last());
            let w2 = w.update(w.len() - 1, w.last().push(c));
            assert forall|k: int, j: int| 0 <= k < w2.len() && 0 <= j < w2[k].len() implies p(
                #[trigger] w2[k][j],
            ) by {
                if k == w.len() - 1 && j == w.last().len() {
                } else if k == w.len() - 1 {
                    assert(w2[k][j] == w[k][j]);
                } else {
                    assert(w2[k] == w[k]);
                }
            }
        } else {
            let w2 = w.push(seq![c]);
            assert forall|k: int, j: int| 0 <= k < w2.len() && 0 <= j < w2[k].len() implies p(
                #[trigger] w2[k][j],
            ) by {
                if k < w.len() {
                    assert(w2[k] == w[k]);
                }
            }
        }
    }
}

proof fn lemma_words_end_in_word(t: Seq<char>)
    requires
        t.len() > 0,
        !spec_char_is_whitespace(t.last()),
    ensures
        words(t).len() > 0,
    decreases t.len(),
{
    if t.len() >= 2 && !spec_char_is_whitespace(t[t.len() - 2]) {
        lemma_words_end_in_word(t.drop_last());
    }
}

proof fn lemma_join_chars(ws: Seq<Seq<char>>, p: spec_fn(char) -> bool)
    requires
        p(' '),
        forall|k: int, j: int| 0 <= k < ws.len() && 0 <= j < ws[k].len() ==> p(#[trigger] ws[k][j]),
    ensures
        forall|i: int| 0 <= i < join_words(ws).len() ==> p(#[trigger] join_words(ws)[i]),
    decreases ws.len(),
{
    if ws.len() == 1 {
        assert forall|i: int| 0 <= i < join_words(ws).len() implies p(#[trigger] join_words(ws)[i]) by {
            assert(join_words(ws)[i] == ws[0][i]);
        }
    } else if ws.len() > 1 {
        let init = ws.drop_last();
        assert forall|k: int, j: int| 0 <= k < init.len() && 0 <= j < init[k].len() implies p(
            #[trigger] init[k][j],
        ) by {
            assert(init[k] == ws[k]);
        }
        lemma_join_chars(init, p);
        let a = join_words(init).push(' ');
        let b = ws.last();
        assert forall|i: int| 0 <= i < (a + b).len() implies p(#[trigger] (a + b)[i]) by {
            if i < join_words(init).len() {
                assert((a + b)[i] == join_words(init)[i]);
            } else if i == join_words(init).len() {
                assert((a + b)[i] == ' ');
            } else {
                assert((a + b)[i] == b[i - a.len()]);
                assert(p(ws[ws.len() - 1][i - a.len()]));
            }
        }
    }
}

/// No two spaces stand next to each other in `s`.
pub open spec fn no_double_space(s: Seq<char>) -> bool {
    forall|i: int| 0 <= i < s.len() - 1 ==> !(#[trigger] s[i] == ' ' && s[i + 1] == ' ')
}

proof fn lemma_words_shape(s: Seq<char>)
    ensures
        forall|k: int|
            0 <= k < words(s).len() ==> (#[trigger] words(s)[k]).len() > 0 && forall|j: int|
                0 <= j < words(s)[k].len() ==> !spec_char_is_whitespace(#[trigger] words(s)[k][j]),
    decreases s.len(),
{
    if s.len() > 0 {
        lemma_words_shape(s.drop_last());
        let w = words(s.drop_last());
        let c = s.last();
        if spec_char_is_whitespace(c) {
        } else if s.len() >= 2 && !spec_char_is_whitespace(s[s.len() - 2]) {
            lemma_words_end_in_word(s.drop_last());
            let w2 = w.update(w.len() - 1, w.last().push(c));
            assert forall|k: int| 0 <= k < w2.len() implies (#[trigger] w2[k]).len() > 0 && forall|j: int|
                0 <= j < w2[k].len() ==> !spec_char_is_whitespace(#[trigger] w2[k][j]) by {
                if k == w.len() - 1 {
                    assert forall|j: int| 0 <= j < w2[k].len() implies !spec_char_is_whitespace(
                        #[trigger] w2[k][j],
                    ) by {
                        if j < w.last().len() {
                            assert(w2[k][j] == w[k][j]);
                        }
                    }
                } else {
                    assert(w2[k] == w[k]);
                }
            }
        } else {
            let w2 = w.push(seq![c]);
            assert forall|k: int| 0 <= k < w2.len() implies (#[trigger] w2[k]).len() > 0 && forall|j: int|
                0 <= j < w2[k].len() ==> !spec_char_is_whitespace(#[trigger] w2[k][j]) by {
                if k < w.len() {
                    assert(w2[k] == w[k]);
                }
            }
        }
    }
}

proof fn lemma_join_no_double_space(ws: Seq<Seq<char>>)
    requires
        forall|k: int|
            0 <= k < ws.len() ==> (#[trigger] ws[k]).len() > 0 && forall|j: int|
                0 <= j < ws[k].len() ==> ws[k][j] != ' ',
    ensures
        no_double_space(join_words(ws)),
        join_words(ws).len() > 0 ==> join_words(ws)[0] != ' ' && join_words(ws).last() != ' ',
        ws.len() > 0 ==> join_words(ws).len() > 0,
    decreases ws.len(),
{
    if ws.len() == 1 {
        assert(ws[0].len() > 0);
        assert(ws[0][ws[0].len() - 1] != ' ');
    } else if ws.len() > 1 {
        let init = ws.drop_last();
        assert forall|k: int| 0 <= k < init.len() implies (#[trigger] init[k]).len() > 0 && forall|j: int|
            0 <= j < init[k].len() ==> init[k][j] != ' ' by {
            assert(init[k] == ws[k]);
        }
        lemma_join_no_double_space(init);
        let a = join_words(init);
        let b = ws.last();
        assert(b == ws[ws.len() - 1]);
        let j = a.push(' ') + b;
        assert(j == join_words(ws));
        assert(b.len() > 0 && b[0] != ' ' && b[b.len() - 1] != ' ');
        assert forall|i: int| 0 <= i < j.len() - 1 implies !(#[trigger] j[i] == ' ' && j[i + 1] == ' ') by {
            if i < a.len() - 1 {
                assert(j[i] == a[i] && j[i + 1] == a[i + 1]);
            } else if i == a.len() - 1 {
                assert(j[i] == a[a.len() - 1]);
            } else if i == a.len() {
                assert(j[i + 1] == b[0]);
            } else {
                assert(j[i] == b[i - a.len() - 1]);
                assert(b[i - a.len() - 1] != ' ');
            }
        }
        assert(j[0] == a[0]);
        assert(j.last() == b[b.len() - 1]);
    }
}

/// A sanitized stem is the fallback, or it has between 1 and 80
/// characters, all of them alphanumeric, `-`, `_`, space or `.` (so never a
/// `/`, `\\`, `:` or other ASCII punctuation), it does not start with `.`,
/// `_` or a space, and no two spaces stand next to each other.
pub proof fn lemma_sanitized_stem_shape(raw: Seq<char>, default: Seq<char>)
    ensures
        ({
            let r = sanitized_stem(raw, default);
            r == default || (1 <= r.len() <= stem_limit() && !is_stem_edge(r[0]) && no_double_space(r)
                && forall|i: int| 0 <= i < r.len() ==> is_stem_char(#[trigger] r[i]))
        }),
{
    let cleaned = raw.map_values(|c: char| stem_char(c));
    let sp = |c: char| is_stem_char(c);
    assert forall|i: int| 0 <= i < cleaned.len() implies sp(#[trigger] cleaned[i]) by {}
    lemma_words_chars(cleaned, sp);
    lemma_join_chars(words(cleaned), sp);
    let collapsed = collapse_whitespace(cleaned);
    let p = trim_pred(TrimSet::StemEdge);
    let start = trim_start_by(collapsed, p);
    lemma_trim_start_shape(collapsed, p);
    lemma_trim_end_shape(start, p);
    let trimmed = trim_by(collapsed, p);
    assert forall|i: int| 0 <= i < trimmed.len() implies is_stem_char(#[trigger] trimmed[i]) by {
        assert(trimmed[i] == start[i]);
        assert(start[i] == collapsed[collapsed.len() - start.len() + i]);
        assert(sp(collapsed[collapsed.len() - start.len() + i]));
    }
    if trimmed.len() > 0 {
        assert(trimmed[0] == start[0]);
    }
    lemma_words_shape(cleaned);
    lemma_join_no_double_space(words(cleaned));
    let off = collapsed.len() - start.len();
    assert forall|i: int| 0 <= i < trimmed.len() - 1 implies !(#[trigger] trimmed[i] == ' ' && trimmed[i
        + 1] == ' ') by {
        assert(trimmed[i] == collapsed[off + i] && trimmed[i + 1] == collapsed[off + i + 1]);
    }
    let r = sanitized_stem(raw, default);
    if trimmed.len() > stem_limit() {
        assert forall|i: int| 0 <= i < r.len() - 1 implies !(#[trigger] r[i] == ' ' && r[i + 1] == ' ') by {
            assert(r[i] == trimmed[i] && r[i + 1] == trimmed[i + 1]);
        }
    }
}

/// A sanitized stem other than the fallback never holds a path separator,
/// a drive colon or another character that common file systems refuse in
/// names: `/`, `\\`, `:`, `*`, `?`, `"`, `<`, `>`, `|`, nor a control
/// character.
pub proof fn lemma_sanitized_stem_safe(raw: Seq<char>, default: Seq<char>)
    ensures
        ({
            let r = sanitized_stem(raw, default);
            r == default || forall|i: int|
                0 <= i < r.len() ==> {
                    let c = #[trigger] r[i];
                    c != '/' && c != '\\' && c != ':' && c != '*' && c != '?' && c != '"' && c != '<'
                        && c != '>' && c != '|' && (c as u32) >= 32
                }
        }),
{
    lemma_sanitized_stem_shape(raw, default);
}

proof fn lemma_words_of_word(s: Seq<char>)
    requires
        s.len() >= 1,
        forall|i: int| 0 <= i < s.len() ==> !spec_char_is_whitespace(#[trigger] s[i]),
    ensures
        words(s) == seq![s],
    decreases s.len(),
{
    let c = s.last();
    assert(!spec_char_is_whitespace(s[s.len() - 1]));
    if s.len() == 1 {
        assert(s.drop_last() =~= Seq::<char>::empty());
        assert(words(s.drop_last()) == Seq::<Seq<char>>::empty());
        assert(seq![c] =~= s);
        assert(words(s) == Seq::<Seq<char>>::empty().push(seq![c]));
        assert(Seq::<Seq<char>>::empty().push(seq![c]) =~= seq![s]);
    } else {
        let init = s.drop_last();
        assert forall|i: int| 0 <= i < init.len() implies !spec_char_is_whitespace(#[trigger] init[i]) by {
            assert(init[i] == s[i]);
        }
        lemma_words_of_word(init);
        assert(!spec_char_is_whitespace(s[s.len() - 2]));
        assert(init.push(c) =~= s);
        let w = words(init);
        assert(w.len() == 1 && w.last() == init);
        assert(words(s) == w.update(w.len() - 1, w.last().push(c)));
        assert(w.update(0, init.push(c)) =~= seq![s]);
    }
}

/// A name made of ASCII letters and digits is kept as its own stem, cut to
/// its first 80 characters.
pub proof fn lemma_sanitized_stem_keeps_plain_names(raw: Seq<char>, default: Seq<char>)
    requires
        raw.len() >= 1,
        forall|i: int| 0 <= i < raw.len() ==> ascii_letter_or_digit(#[trigger] raw[i]),
    ensures
        sanitized_stem(raw, default) == if raw.len() <= 80 {
            raw
        } else {
            raw.take(80)
        },
{
    let cleaned = raw.map_values(|c: char| stem_char(c));
    assert(cleaned =~= raw);
    assert forall|i: int| 0 <= i < raw.len() implies !spec_char_is_whitespace(#[trigger] raw[i]) by {
        assert(ascii_letter_or_digit(raw[i]));
    }
    lemma_words_of_word(raw);
    assert(join_words(seq![raw]) == raw);
    let p = trim_pred(TrimSet::StemEdge);
    assert(!p(raw[0]) && !p(raw.last())) by {
        assert(ascii_letter_or_digit(raw[0]));
        assert(ascii_letter_or_digit(raw[raw.len() - 1]));
    }
    assert(trim_start_by(raw, p) == raw);
    assert(trim_end_by(raw, p) == raw);
}

/// The candidate names are `stem.ext` and then `stem (n).ext` with `n` in
/// decimal; without an extension there is no dot.
pub proof fn lemma_candidate_name_format(stem: Seq<char>, e: Seq<char>, n: nat)
    ensures
        candidate_name(stem, None, 0) == stem,
        candidate_name(stem, Some(e), 0) == stem + "."@ + e,
        n >= 1 ==> candidate_name(stem, None, n) == stem + " ("@ + decimal(n) + ")"@,
        n >= 1 ==> candidate_name(stem, Some(e), n) == stem + " ("@ + decimal(n) + ")."@ + e,
{
    reveal_strlit(".");
    reveal_strlit(" (");
    reveal_strlit(")");
    reveal_strlit(").");
    assert(candidate_name(stem, Some(e), 0) =~= stem + "."@ + e);
    if n >= 1 {
        assert(candidate_name(stem, None, n) =~= stem + " ("@ + decimal(n) + ")"@);
        assert(candidate_name(stem, Some(e), n) =~= stem + " ("@ + decimal(n) + ")."@ + e);
    }
}

proof fn lemma_words_after_space(x: Seq<char>, y: Seq<char>)
    requires
        x.len() >= 1,
        spec_char_is_whitespace(x.last()),
        y.len() >= 1,
        forall|i: int| 0 <= i < y.len() ==> !spec_char_is_whitespace(#[trigger] y[i]),
    ensures
        words(x + y) == words(x).push(y),
    decreases y.len(),
{
    let c = y.last();
    assert(!spec_char_is_whitespace(y[y.len() - 1]));
    assert((x + y).drop_last() =~= x + y.drop_last());
    assert((x + y).last() == c);
    if y.len() == 1 {
        assert(x + y.drop_last() =~= x);
        assert((x + y)[(x + y).len() - 2] == x.last());
        assert(y =~= seq![c]);
    } else {
        let init = y.drop_last();
        assert forall|i: int| 0 <= i < init.len() implies !spec_char_is_whitespace(#[trigger] init[i]) by {
            assert(init[i] == y[i]);
        }
        lemma_words_after_space(x, init);
        assert((x + y)[(x + y).len() - 2] == y[y.len() - 2]);
        let w = words(x + init);
        assert(w == words(x).push(init));
        assert(w.update(w.len() - 1, w.last().push(c)) =~= words(x).push(y)) by {
            assert(init.push(c) =~= y);
        }
    }
}

proof fn lemma_words_trailing_spaces(x: Seq<char>, k: nat)
    ensures
        words(x + Seq::new(k, |i: int| ' ')) == words(x),
    decreases k,
{
    if k > 0 {
        let sp = Seq::new(k, |i: int| ' ');
        let sp1 = Seq::new((k - 1) as nat, |i: int| ' ');
        lemma_words_trailing_spaces(x, (k - 1) as nat);
        assert((x + sp).drop_last() =~= x + sp1);
        assert((x + sp).last() == ' ');
        assert(spec_char_is_whitespace(' '));
    }
}

/// Words of letters and digits separated by any run of spaces are kept,
/// joined by exactly one space.
pub proof fn lemma_sanitized_stem_single_spaces(w1: Seq<char>, k: nat, w2: Seq<char>, default: Seq<char>)
    requires
        w1.len() >= 1,
        w2.len() >= 1,
        k >= 1,
        w1.len() + 1 + w2.len() <= 80,
        forall|i: int| 0 <= i < w1.len() ==> ascii_letter_or_digit(#[trigger] w1[i]),
        forall|i: int| 0 <= i < w2.len() ==> ascii_letter_or_digit(#[trigger] w2[i]),
    ensures
        sanitized_stem(w1 + Seq::new(k, |i: int| ' ') + w2, default) == w1 + seq![' '] + w2,
{
    let sp = Seq::new(k, |i: int| ' ');
    let raw = w1 + sp + w2;
    assert(raw.map_values(|c: char| stem_char(c)) =~= raw) by {
        assert forall|i: int| 0 <= i < raw.len() implies stem_char(#[trigger] raw[i]) == raw[i] by {
            if i < w1.len() {
                assert(raw[i] == w1[i]);
                assert(ascii_letter_or_digit(w1[i]));
            } else if i < w1.len() + k {
                assert(raw[i] == ' ');
            } else {
                assert(raw[i] == w2[i - w1.len() - k]);
                assert(ascii_letter_or_digit(w2[i - w1.len() - k]));
            }
        }
    }
    assert forall|i: int| 0 <= i < w1.len() implies !spec_char_is_whitespace(#[trigger] w1[i]) by {
        assert(ascii_letter_or_digit(w1[i]));
    }
    assert forall|i: int| 0 <= i < w2.len() implies !spec_char_is_whitespace(#[trigger] w2[i]) by {
        assert(ascii_letter_or_digit(w2[i]));
    }
    lemma_words_of_word(w1);
    lemma_words_trailing_spaces(w1, k);
    assert((w1 + sp).last() == ' ');
    assert(spec_char_is_whitespace(' '));
    lemma_words_after_space(w1 + sp, w2);
    let ws = seq![w1].push(w2);
    assert(words(raw) == ws);
    assert(ws.drop_last() =~= seq![w1]);
    assert(join_words(ws) == join_words(seq![w1]).push(' ') + w2);
    let joined = w1 + seq![' '] + w2;
    assert(join_words(ws) =~= joined);
    let p = trim_pred(TrimSet::StemEdge);
    assert(joined[0] == w1[0] && ascii_letter_or_digit(w1[0]));
    assert(joined.last() == w2[w2.len() - 1] && ascii_letter_or_digit(w2[w2.len() - 1]));
    assert(trim_start_by(joined, p) == joined);
    assert(trim_end_by(joined, p) == joined);
}

/// Distinct suffix numbers give distinct candidate names, so a save never
/// reuses the name it has just found taken.
pub proof fn lemma_candidate_names_distinct(
    stem: Seq<char>,
    ext: Option<Seq<char>>,
    n: nat,
    m: nat,
)
    requires
        n != m,
    ensures
        candidate_name(stem, ext, n) != candidate_name(stem, ext, m),
{
    let a = candidate_name(stem, ext, n);
    let b = candidate_name(stem, ext, m);
    if a == b {
        if n == 0 || m == 0 {
            lemma_decimal_nonempty(if n == 0 { m } else { n });
            assert(a.len() != b.len());
        } else {
            lemma_decimal_nonempty(n);
            lemma_decimal_nonempty(m);
            let da = decimal(n);
            let db = decimal(m);
            let pre = stem + seq![' ', '('];
            let ta = match ext { Some(e) => seq![')', '.'] + e, None => seq![')'] };
            assert(a =~= pre + da + ta);
            assert(b =~= pre + db + ta);
            assert(da.len() == db.len());
            assert forall|i: int| 0 <= i < da.len() implies da[i] == db[i] by {
                assert(a[pre.len() + i] == da[i]);
                assert(b[pre.len() + i] == db[i]);
            }
            assert(da =~= db);
            lemma_decimal_injective(n, m);
        }
    }
}

proof fn lemma_decimal_nonempty(n: nat)
    ensures
        decimal(n).len() >= 1,
        n >= 10 ==> decimal(n).len() >= 2,
    decreases n,
{
    if n >= 10 {
        lemma_decimal_nonempty(n / 10);
    }
}

proof fn lemma_digit_char_injective(a: nat, b: nat)
    requires
        a < 10,
        b < 10,
        digit_char(a) == digit_char(b),
    ensures
        a == b,
{
    assert(digit_char(a) as u32 == a + 48);
    assert(digit_char(b) as u32 == b + 48);
}

proof fn lemma_decimal_injective(n: nat, m: nat)
    requires
        decimal(n) == decimal(m),
    ensures
        n == m,
    decreases n,
{
    lemma_decimal_nonempty(n);
    lemma_decimal_nonempty(m);
    if n < 10 && m < 10 {
        assert(decimal(n)[0] == digit_char(n));
        assert(decimal(m)[0] == digit_char(m));
        lemma_digit_char_injective(n, m);
    } else if n >= 10 && m >= 10 {
        assert(decimal(n).last() == digit_char(n % 10));
        assert(decimal(m).last() == digit_char(m % 10));
        lemma_digit_char_injective(n % 10, m % 10);
        assert(decimal(n).drop_last() =~= decimal(n / 10));
        assert(decimal(m).drop_last() =~= decimal(m / 10));
        lemma_decimal_injective(n / 10, m / 10);
    } else {
        assert(decimal(n).len() != decimal(m).len());
    }
}

/// Whatever the bytes, MIME type and name, the chosen image extension is one
/// of the nine known ones.
pub proof fn lemma_chosen_image_extension_known(data: Seq<u8>, mime: Seq<char>, name_ext: Option<Seq<char>>)
    ensures
        known_image_extension(chosen_image_extension(data, mime, name_ext)),
{
}

/// One of `png`, `jpg`, `gif`, `webp`, `bmp`, `svg`, `tiff`, `avif`, `ico`.
pub open spec fn known_image_extension(e: Seq<char>) -> bool {
    e == "png"@ || e == "jpg"@ || e == "gif"@ || e == "webp"@ || e == "bmp"@ || e == "svg"@ || e
        == "tiff"@ || e == "avif"@ || e == "ico"@
}

} // verus!
