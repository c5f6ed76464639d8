//! The encodings that the code converter reads and writes, and the calls into
//! the crates that implement them (`base64`, `hex`, `urlencoding`,
//! `html_escape`, `serde_json`).
//!
//! Where the crate's behaviour fits in a few lines it is stated here as a
//! spec function over bytes or characters; where it does not, its result is
//! given a name.
use vstd::prelude::*;
use base64::Engine;
use vstd::utf8::{encode_utf8, valid_utf8, decode_utf8};
use crate::numbers::hex_char;

verus! {

// ---------------------------------------------------------------------------
// Hexadecimal (`hex`)
// ---------------------------------------------------------------------------

pub open spec fn is_hex_byte(b: u8) -> bool {
    (48 <= b <= 57) || (65 <= b <= 70) || (97 <= b <= 102)
}

pub open spec fn hex_byte_val(b: u8) -> int {
    if 48 <= b <= 57 {
        b as int - 48
    } else if 65 <= b <= 70 {
        b as int - 55
    } else {
        b as int - 87
    }
}

/// What `hex::decode` gives for bytes: pairs of hexadecimal digits, either
/// case, each pair one byte; an odd length or any other byte fails.
pub open spec fn spec_hex_decode(b: Seq<u8>) -> Option<Seq<u8>> {
    if b.len() % 2 == 0 && forall|i: int| 0 <= i < b.len() ==> is_hex_byte(#[trigger] b[i]) {
        Some(
            Seq::new(
                b.len() / 2,
                |i: int| (hex_byte_val(b[2 * i]) * 16 + hex_byte_val(b[2 * i + 1])) as u8,
            ),
        )
    } else {
        None
    }
}

pub open spec fn hex_lower_char(d: int) -> char {
    if d < 10 {
        ('0' as int + d) as char
    } else {
        ('a' as int + d - 10) as char
    }
}

/// What `hex::encode` gives: two lower-case hexadecimal digits per byte.
pub open spec fn spec_hex_encode(b: Seq<u8>) -> Seq<char> {
    Seq::new(
        b.len() * 2,
        |i: int|
            if i % 2 == 0 {
                hex_lower_char(b[i / 2] as int / 16)
            } else {
                hex_lower_char(b[i / 2] as int % 16)
            },
    )
}

/// Calls `hex::decode` on the UTF-8 bytes of `s`; its source reads pairs of
/// hexadecimal digits and fails on an odd length or any other byte.
#[verifier::external_body]
pub(crate) fn hex_decode(s: &str) -> (r: Option<Vec<u8>>)
    ensures
        r is Some <==> spec_hex_decode(encode_utf8(s@)) is Some,
        r matches Some(v) ==> Some(v@) == spec_hex_decode(encode_utf8(s@)),
{
    hex::decode(s).ok()
}

/// Calls `hex::encode` on the UTF-8 bytes of `s`: two lower-case digits per
/// byte.
#[verifier::external_body]
pub(crate) fn hex_encode(s: &str) -> (r: String)
    ensures
        r@ == spec_hex_encode(encode_utf8(s@)),
{
    hex::encode(s)
}

// ---------------------------------------------------------------------------
// Percent encoding (`urlencoding`)
// ---------------------------------------------------------------------------

/// Bytes that `urlencoding::encode` leaves as they are.
pub open spec fn is_url_safe_byte(b: u8) -> bool {
    (48 <= b <= 57) || (65 <= b <= 90) || (97 <= b <= 122) || b == 45 || b == 46 || b == 95
        || b == 126
}

pub open spec fn url_piece(b: u8) -> Seq<char> {
    if is_url_safe_byte(b) {
        seq![b as char]
    } else {
        seq!['%', hex_char(b as int / 16), hex_char(b as int % 16)]
    }
}

/// What `urlencoding::encode` gives: letters, digits and `-._~` as they are,
/// every other byte as `%` and two upper-case hexadecimal digits.
pub open spec fn spec_url_encode(b: Seq<u8>) -> Seq<char> {
    Seq::new(b.len(), |i: int| url_piece(b[i])).flatten()
}

/// The bytes that `urlencoding::decode_binary` gives: `%` followed by two
/// hexadecimal digits is one byte; every other byte stays.
pub open spec fn spec_percent_decode(b: Seq<u8>) -> Seq<u8>
    decreases b.len(),
{
    if b.len() == 0 {
        b
    } else if b[0] == 37 && b.len() >= 3 && is_hex_byte(b[1]) && is_hex_byte(b[2]) {
        seq![(hex_byte_val(b[1]) * 16 + hex_byte_val(b[2])) as u8] + spec_percent_decode(b.skip(3))
    } else {
        seq![b[0]] + spec_percent_decode(b.skip(1))
    }
}

/// What `urlencoding::decode` gives: the percent-decoded bytes, when they are
/// valid UTF-8.
pub open spec fn spec_url_decode(s: Seq<char>) -> Option<Seq<char>> {
    let d = spec_percent_decode(encode_utf8(s));
    if valid_utf8(d) {
        Some(decode_utf8(d))
    } else {
        None
    }
}

/// Calls `urlencoding::decode`: percent-decoding, then UTF-8 decoding (its
/// source fails only on invalid UTF-8).
#[verifier::external_body]
pub(crate) fn url_decode(s: &str) -> (r: Option<String>)
    ensures
        r is Some <==> spec_url_decode(s@) is Some,
        r matches Some(d) ==> Some(d@) == spec_url_decode(s@),
{
    urlencoding::decode(s).ok().map(|d| d.into_owned())
}

/// Calls `urlencoding::encode` on `s`.
#[verifier::external_body]
pub(crate) fn url_encode(s: &str) -> (r: String)
    ensures
        r@ == spec_url_encode(encode_utf8(s@)),
{
    urlencoding::encode(s).into_owned()
}

// ---------------------------------------------------------------------------
// HTML entities (`html_escape`)
// ---------------------------------------------------------------------------

/// What `html_escape::decode_html_entities` gives for a string.
pub uninterp spec fn spec_html_decode(s: Seq<char>) -> Seq<char>;

pub open spec fn html_piece(c: char) -> Seq<char> {
    if c == '&' {
        seq!['&', 'a', 'm', 'p', ';']
    } else if c == '<' {
        seq!['&', 'l', 't', ';']
    } else if c == '>' {
        seq!['&', 'g', 't', ';']
    } else {
        seq![c]
    }
}

/// What `html_escape::encode_text` gives: `&`, `<` and `>` escaped.
pub open spec fn spec_html_encode(s: Seq<char>) -> Seq<char> {
    Seq::new(s.len(), |i: int| html_piece(s[i])).flatten()
}

/// Calls `html_escape::decode_html_entities`; the decoding is named, not
/// described.
#[verifier::external_body]
pub(crate) fn html_decode(s: &str) -> (r: String)
    ensures
        r@ == spec_html_decode(s@),
{
    html_escape::decode_html_entities(s).into_owned()
}

/// Calls `html_escape::encode_text`, which escapes `&`, `<` and `>`.
#[verifier::external_body]
pub(crate) fn html_encode(s: &str) -> (r: String)
    ensures
        r@ == spec_html_encode(s@),
{
    html_escape::encode_text(s).into_owned()
}

// ---------------------------------------------------------------------------
// Base64 (`base64`)
// ---------------------------------------------------------------------------

/// Why a Base64 decoding failed (the variants of `base64::DecodeError`).
#[derive(Debug, PartialEq, Eq, Structural)]
pub enum Base64Error {
    InvalidByte(usize, u8),
    InvalidLength(usize),
    InvalidLastSymbol(usize, u8),
    InvalidPadding,
}

/// The Base64 digit `v` (0 to 63): in the standard alphabet, or in the
/// URL-safe one, which writes `-` and `_` for the last two.
pub open spec fn b64_digit(v: int, url_safe: bool) -> char {
    if v < 26 {
        ('A' as int + v) as char
    } else if v < 52 {
        ('a' as int + v - 26) as char
    } else if v < 62 {
        ('0' as int + v - 52) as char
    } else if v == 62 {
        if url_safe { '-' } else { '+' }
    } else {
        if url_safe { '_' } else { '/' }
    }
}

/// The padded Base64 encoding of `b` in either alphabet: every three bytes as
/// four digits, the last group padded with `=`.
pub open spec fn spec_b64_encode_with(b: Seq<u8>, url_safe: bool) -> Seq<char>
    decreases b.len(),
{
    if b.len() == 0 {
        Seq::empty()
    } else if b.len() == 1 {
        seq![
            b64_digit((b[0] as int) / 4, url_safe),
            b64_digit(((b[0] as int) % 4) * 16, url_safe),
            '=',
            '=',
        ]
    } else if b.len() == 2 {
        seq![
            b64_digit((b[0] as int) / 4, url_safe),
            b64_digit(((b[0] as int) % 4) * 16 + (b[1] as int) / 16, url_safe),
            b64_digit(((b[1] as int) % 16) * 4, url_safe),
            '=',
        ]
    } else {
        seq![
            b64_digit((b[0] as int) / 4, url_safe),
            b64_digit(((b[0] as int) % 4) * 16 + (b[1] as int) / 16, url_safe),
            b64_digit(((b[1] as int) % 16) * 4 + (b[2] as int) / 64, url_safe),
            b64_digit((b[2] as int) % 64, url_safe),
        ] + spec_b64_encode_with(b.skip(3), url_safe)
    }
}

/// What the `STANDARD` engine's `encode` gives.
pub open spec fn spec_b64_encode(b: Seq<u8>) -> Seq<char> {
    spec_b64_encode_with(b, false)
}

/// What a padded engine's `decode` gives: the bytes whose padded encoding in
/// that alphabet the text is, if there are any (there is at most one such
/// sequence, see `lemma_b64_encode_injective`).
pub open spec fn spec_b64_decode_with(s: Seq<char>, url_safe: bool) -> Option<Seq<u8>> {
    if exists|b: Seq<u8>| spec_b64_encode_with(b, url_safe) == s {
        Some(choose|b: Seq<u8>| spec_b64_encode_with(b, url_safe) == s)
    } else {
        None
    }
}

/// Calls `general_purpose::URL_SAFE.decode`. Its source (padding required
/// and canonical, no trailing bits) accepts exactly the padded URL-safe
/// encoding of some bytes and then gives those bytes; which error it gives
/// otherwise is not stated.
#[verifier::external_body]
pub(crate) fn b64_url_safe_decode(s: &str) -> (r: Result<Vec<u8>, Base64Error>)
    ensures
        r is Ok <==> exists|b: Seq<u8>| spec_b64_encode_with(b, true) == s@,
        r matches Ok(v) ==> spec_b64_encode_with(v@, true) == s@,
{
    match base64::engine::general_purpose::URL_SAFE.decode(s) {
        Ok(v) => Ok(v),
        Err(base64::DecodeError::InvalidByte(i, b)) => Err(Base64Error::InvalidByte(i, b)),
        Err(base64::DecodeError::InvalidLength(n)) => Err(Base64Error::InvalidLength(n)),
        Err(base64::DecodeError::InvalidLastSymbol(i, b)) => Err(Base64Error::InvalidLastSymbol(i, b)),
        Err(base64::DecodeError::InvalidPadding) => Err(Base64Error::InvalidPadding),
    }
}

/// Calls `general_purpose::STANDARD.decode`. Its source (padding required
/// and canonical, no trailing bits) accepts exactly the padded standard
/// encoding of some bytes and then gives those bytes; which error it gives
/// otherwise is not stated.
#[verifier::external_body]
pub(crate) fn b64_standard_decode(s: &str) -> (r: Result<Vec<u8>, Base64Error>)
    ensures
        r is Ok <==> exists|b: Seq<u8>| spec_b64_encode_with(b, false) == s@,
        r matches Ok(v) ==> spec_b64_encode_with(v@, false) == s@,
{
    match base64::engine::general_purpose::STANDARD.decode(s) {
        Ok(v) => Ok(v),
        Err(base64::DecodeError::InvalidByte(i, b)) => Err(Base64Error::InvalidByte(i, b)),
        Err(base64::DecodeError::InvalidLength(n)) => Err(Base64Error::InvalidLength(n)),
        Err(base64::DecodeError::InvalidLastSymbol(i, b)) => Err(Base64Error::InvalidLastSymbol(i, b)),
        Err(base64::DecodeError::InvalidPadding) => Err(Base64Error::InvalidPadding),
    }
}

/// Calls `general_purpose::STANDARD.encode` on the UTF-8 bytes of `s`.
#[verifier::external_body]
pub(crate) fn b64_standard_encode(s: &str) -> (r: String)
    ensures
        r@ == spec_b64_encode(encode_utf8(s@)),
{
    base64::engine::general_purpose::STANDARD.encode(s)
}

proof fn lemma_b64_digit(v: int, w: int, u1: bool, u2: bool)
    requires
        0 <= v < 64,
        0 <= w < 64,
    ensures
        b64_digit(v, u1) != '=',
        '+' <= b64_digit(v, u1) <= 'z',
        b64_digit(v, u1) == b64_digit(w, u2) ==> v == w,
{
}

/// A padded encoding has a multiple of four characters, each of them a
/// digit of the alphabet or `=` (all between `+` and `z`).
pub proof fn lemma_b64_encode_len(b: Seq<u8>, u: bool)
    ensures
        spec_b64_encode_with(b, u).len() % 4 == 0,
        b.len() > 0 ==> spec_b64_encode_with(b, u).len() >= 4,
        forall|i: int|
            0 <= i < spec_b64_encode_with(b, u).len() ==> '+' <= #[trigger] spec_b64_encode_with(
                b,
                u,
            )[i] <= 'z',
    decreases b.len(),
{
    let e = spec_b64_encode_with(b, u);
    if b.len() == 0 {
    } else if b.len() <= 2 {
        lemma_b64_digit((b[0] as int) / 4, 0, u, u);
        if b.len() == 1 {
            lemma_b64_digit(((b[0] as int) % 4) * 16, 0, u, u);
        } else {
            lemma_b64_digit(((b[0] as int) % 4) * 16 + (b[1] as int) / 16, 0, u, u);
            lemma_b64_digit(((b[1] as int) % 16) * 4, 0, u, u);
        }
    } else {
        lemma_b64_encode_len(b.skip(3), u);
        let head = seq![
            b64_digit((b[0] as int) / 4, u),
            b64_digit(((b[0] as int) % 4) * 16 + (b[1] as int) / 16, u),
            b64_digit(((b[1] as int) % 16) * 4 + (b[2] as int) / 64, u),
            b64_digit((b[2] as int) % 64, u),
        ];
        let tail = spec_b64_encode_with(b.skip(3), u);
        lemma_b64_digit((b[0] as int) / 4, 0, u, u);
        lemma_b64_digit(((b[0] as int) % 4) * 16 + (b[1] as int) / 16, 0, u, u);
        lemma_b64_digit(((b[1] as int) % 16) * 4 + (b[2] as int) / 64, 0, u, u);
        lemma_b64_digit((b[2] as int) % 64, 0, u, u);
        assert(e == head + tail);
        assert forall|i: int| 0 <= i < e.len() implies '+' <= #[trigger] e[i] <= 'z' by {
            if i < 4 {
                assert(e[i] == head[i]);
            } else {
                assert(e[i] == tail[i - 4]);
            }
        }
    }
}

/// Different bytes never have the same padded Base64 encoding, whichever
/// alphabet each of the two encodings uses.
pub proof fn lemma_b64_encode_injective(a: Seq<u8>, b: Seq<u8>, u1: bool, u2: bool)
    requires
        spec_b64_encode_with(a, u1) == spec_b64_encode_with(b, u2),
    ensures
        a == b,
    decreases a.len(),
{
    let ea = spec_b64_encode_with(a, u1);
    let eb = spec_b64_encode_with(b, u2);
    lemma_b64_encode_len(a, u1);
    lemma_b64_encode_len(b, u2);
    if a.len() == 0 || b.len() == 0 {
        assert(a.len() == 0 && b.len() == 0);
        assert(a =~= b);
    } else {
        let a0 = a[0] as int;
        let b0 = b[0] as int;
        assert(ea[0] == b64_digit(a0 / 4, u1));
        assert(eb[0] == b64_digit(b0 / 4, u2));
        lemma_b64_digit(a0 / 4, b0 / 4, u1, u2);
        if a.len() == 1 || b.len() == 1 {
            // Only a single byte is padded with two `=`.
            if a.len() >= 2 {
                if a.len() == 2 {
                    lemma_b64_digit(((a[1] as int) % 16) * 4, 0, u1, u2);
                } else {
                    lemma_b64_digit(((a[1] as int) % 16) * 4 + (a[2] as int) / 64, 0, u1, u2);
                }
            }
            if b.len() >= 2 {
                if b.len() == 2 {
                    lemma_b64_digit(((b[1] as int) % 16) * 4, 0, u2, u1);
                } else {
                    lemma_b64_digit(((b[1] as int) % 16) * 4 + (b[2] as int) / 64, 0, u2, u1);
                }
            }
            assert(a.len() == 1 && b.len() == 1);
            lemma_b64_digit((a0 % 4) * 16, (b0 % 4) * 16, u1, u2);
            assert(a0 == b0);
            assert(a =~= b);
        } else {
            let a1 = a[1] as int;
            let b1 = b[1] as int;
            assert(ea[1] == b64_digit((a0 % 4) * 16 + a1 / 16, u1));
            assert(eb[1] == b64_digit((b0 % 4) * 16 + b1 / 16, u2));
            lemma_b64_digit((a0 % 4) * 16 + a1 / 16, (b0 % 4) * 16 + b1 / 16, u1, u2);
            assert(a0 == b0);
            if a.len() == 2 || b.len() == 2 {
                // Two bytes are padded with one `=`, three or more with none.
                if a.len() >= 3 {
                    lemma_b64_digit((a[2] as int) % 64, 0, u1, u2);
                }
                if b.len() >= 3 {
                    lemma_b64_digit((b[2] as int) % 64, 0, u2, u1);
                }
                assert(a.len() == 2 && b.len() == 2);
                lemma_b64_digit((a1 % 16) * 4, (b1 % 16) * 4, u1, u2);
                assert(a1 == b1);
                assert(a =~= b);
            } else {
                let a2 = a[2] as int;
                let b2 = b[2] as int;
                assert(ea[2] == b64_digit((a1 % 16) * 4 + a2 / 64, u1));
                assert(eb[2] == b64_digit((b1 % 16) * 4 + b2 / 64, u2));
                assert(ea[3] == b64_digit(a2 % 64, u1));
                assert(eb[3] == b64_digit(b2 % 64, u2));
                lemma_b64_digit((a1 % 16) * 4 + a2 / 64, (b1 % 16) * 4 + b2 / 64, u1, u2);
                lemma_b64_digit(a2 % 64, b2 % 64, u1, u2);
                assert(a1 == b1);
                assert(a2 == b2);
                assert(ea.skip(4) =~= spec_b64_encode_with(a.skip(3), u1));
                assert(eb.skip(4) =~= spec_b64_encode_with(b.skip(3), u2));
                lemma_b64_encode_injective(a.skip(3), b.skip(3), u1, u2);
                assert(a =~= seq![a[0], a[1], a[2]] + a.skip(3));
                assert(b =~= seq![b[0], b[1], b[2]] + b.skip(3));
            }
        }
    }
}

/// How many `=` end the padded encoding of `n` bytes.
pub open spec fn b64_pad_len(n: nat) -> nat {
    if n % 3 == 1 {
        2
    } else if n % 3 == 2 {
        1
    } else {
        0
    }
}

/// The encoding without its padding, as the `_NO_PAD` engines write it.
pub open spec fn spec_b64_encode_nopad(b: Seq<u8>, url_safe: bool) -> Seq<char> {
    let e = spec_b64_encode_with(b, url_safe);
    e.take(e.len() - b64_pad_len(b.len()))
}

/// The padded encoding ends in exactly `b64_pad_len` `=`, and no digit
/// before them is `=`.
pub proof fn lemma_b64_pad_split(b: Seq<u8>, u: bool)
    ensures
        b64_pad_len(b.len()) <= spec_b64_encode_with(b, u).len(),
        forall|i: int|
            spec_b64_encode_with(b, u).len() - b64_pad_len(b.len()) <= i < spec_b64_encode_with(
                b,
                u,
            ).len() ==> #[trigger] spec_b64_encode_with(b, u)[i] == '=',
        forall|i: int|
            0 <= i < spec_b64_encode_with(b, u).len() - b64_pad_len(b.len())
                ==> #[trigger] spec_b64_encode_with(b, u)[i] != '=',
    decreases b.len(),
{
    let e = spec_b64_encode_with(b, u);
    if b.len() == 0 {
    } else if b.len() <= 2 {
        lemma_b64_digit((b[0] as int) / 4, 0, u, u);
        if b.len() == 1 {
            lemma_b64_digit(((b[0] as int) % 4) * 16, 0, u, u);
        } else {
            lemma_b64_digit(((b[0] as int) % 4) * 16 + (b[1] as int) / 16, 0, u, u);
            lemma_b64_digit(((b[1] as int) % 16) * 4, 0, u, u);
        }
    } else {
        let rest = b.skip(3);
        lemma_b64_pad_split(rest, u);
        lemma_b64_encode_len(rest, u);
        let head = seq![
            b64_digit((b[0] as int) / 4, u),
            b64_digit(((b[0] as int) % 4) * 16 + (b[1] as int) / 16, u),
            b64_digit(((b[1] as int) % 16) * 4 + (b[2] as int) / 64, u),
            b64_digit((b[2] as int) % 64, u),
        ];
        let tail = spec_b64_encode_with(rest, u);
        lemma_b64_digit((b[0] as int) / 4, 0, u, u);
        lemma_b64_digit(((b[0] as int) % 4) * 16 + (b[1] as int) / 16, 0, u, u);
        lemma_b64_digit(((b[1] as int) % 16) * 4 + (b[2] as int) / 64, 0, u, u);
        lemma_b64_digit((b[2] as int) % 64, 0, u, u);
        assert(e == head + tail);
        assert(b64_pad_len(b.len()) == b64_pad_len(rest.len()));
        let k = b64_pad_len(b.len());
        assert forall|i: int| e.len() - k <= i < e.len() implies #[trigger] e[i] == '=' by {
            assert(e[i] == tail[i - 4]);
        }
        assert forall|i: int| 0 <= i < e.len() - k implies #[trigger] e[i] != '=' by {
            if i < 4 {
                assert(e[i] == head[i]);
            } else {
                assert(e[i] == tail[i - 4]);
            }
        }
    }
}

/// Decoding gives back the bytes that were encoded.
pub proof fn lemma_b64_decode_encode(b: Seq<u8>, u: bool)
    ensures
        spec_b64_decode_with(spec_b64_encode_with(b, u), u) == Some(b),
{
    let e = spec_b64_encode_with(b, u);
    assert(spec_b64_encode_with(b, u) == e);
    let c = choose|c: Seq<u8>| spec_b64_encode_with(c, u) == e;
    lemma_b64_encode_injective(c, b, u, u);
}

// ---------------------------------------------------------------------------
// JSON (`serde_json`)
// ---------------------------------------------------------------------------

/// What reading a JSON value from a text and writing it back with
/// `serde_json::to_string_pretty` gives; `None` when the text is no JSON.
pub uninterp spec fn spec_json_pretty(text: Seq<char>) -> Option<Seq<char>>;

/// What `serde_json::from_str::<String>` gives for a text.
pub uninterp spec fn spec_json_string(text: Seq<char>) -> Option<Seq<char>>;

/// Calls `serde_json::from_str::<serde_json::Value>` and, on success,
/// `serde_json::to_string_pretty` on the value (which cannot fail for a
/// `Value`); the result is named, not described.
#[verifier::external_body]
pub(crate) fn json_pretty(text: &str) -> (r: Option<String>)
    ensures
        r is Some <==> spec_json_pretty(text@) is Some,
        r matches Some(s) ==> Some(s@) == spec_json_pretty(text@),
{
    serde_json::from_str::<serde_json::Value>(text).ok().map(
        |v| serde_json::to_string_pretty(&v).unwrap(),
    )
}

/// Calls `serde_json::from_str::<String>`; the result is named, not
/// described.
#[verifier::external_body]
pub(crate) fn json_string(text: &str) -> (r: Option<String>)
    ensures
        r is Some <==> spec_json_string(text@) is Some,
        r matches Some(s) ==> Some(s@) == spec_json_string(text@),
{
    serde_json::from_str::<String>(text).ok()
}


// ---------------------------------------------------------------------------
// Percent encoding is undone by percent decoding
// ---------------------------------------------------------------------------

/// The bytes of a text of ASCII characters.
pub open spec fn ascii_bytes(s: Seq<char>) -> Seq<u8> {
    s.map_values(|c: char| c as u8)
}

proof fn lemma_url_encode_first(b: Seq<u8>)
    requires
        b.len() > 0,
    ensures
        spec_url_encode(b) == url_piece(b[0]) + spec_url_encode(b.skip(1)),
{
    let pieces = Seq::new(b.len(), |i: int| url_piece(b[i]));
    let rest = b.skip(1);
    assert(pieces.drop_first() =~= Seq::new(rest.len(), |i: int| url_piece(rest[i])));
    assert(pieces.first() == url_piece(b[0]));
}

proof fn lemma_hex_char_byte(d: int)
    requires
        0 <= d < 16,
    ensures
        is_hex_byte(hex_char(d) as u8),
        hex_byte_val(hex_char(d) as u8) == d,
        '\0' <= hex_char(d) <= '\u{7f}',
{
}

proof fn lemma_url_piece_decodes(x: u8, rest: Seq<u8>)
    ensures
        vstd::utf8::is_ascii_chars(url_piece(x)),
        spec_percent_decode(ascii_bytes(url_piece(x)) + rest) == seq![x] + spec_percent_decode(rest),
{
    let p = url_piece(x);
    let all = ascii_bytes(p) + rest;
    if is_url_safe_byte(x) {
        assert(ascii_bytes(p) =~= seq![x]);
        assert(all[0] == x);
        assert(all.skip(1) =~= rest);
    } else {
        let hi = x as int / 16;
        let lo = x as int % 16;
        lemma_hex_char_byte(hi);
        lemma_hex_char_byte(lo);
        assert(ascii_bytes(p) =~= seq![37u8, hex_char(hi) as u8, hex_char(lo) as u8]);
        assert(all[0] == 37u8);
        assert(all[1] == hex_char(hi) as u8);
        assert(all[2] == hex_char(lo) as u8);
        assert(all.skip(3) =~= rest);
        assert((hi * 16 + lo) as u8 == x);
    }
}

proof fn lemma_url_bytes_roundtrip(b: Seq<u8>)
    ensures
        vstd::utf8::is_ascii_chars(spec_url_encode(b)),
        spec_percent_decode(ascii_bytes(spec_url_encode(b))) == b,
    decreases b.len(),
{
    if b.len() == 0 {
        assert(spec_url_encode(b) =~= Seq::<char>::empty());
        assert(ascii_bytes(spec_url_encode(b)) =~= Seq::<u8>::empty());
    } else {
        lemma_url_encode_first(b);
        lemma_url_bytes_roundtrip(b.skip(1));
        let p = url_piece(b[0]);
        let r = spec_url_encode(b.skip(1));
        lemma_url_piece_decodes(b[0], ascii_bytes(r));
        assert(ascii_bytes(p + r) =~= ascii_bytes(p) + ascii_bytes(r));
        assert(seq![b[0]] + b.skip(1) =~= b);
        assert forall|i: int| 0 <= i < (p + r).len() implies '\0' <= #[trigger] (p + r)[i] <= '\u{7f}' by {
            if i < p.len() {
                assert((p + r)[i] == p[i]);
            } else {
                assert((p + r)[i] == r[i - p.len()]);
            }
        }
    }
}

/// Percent decoding undoes percent encoding: the text that
/// `urlencoding::encode` writes for `s` decodes to `s`.
pub proof fn lemma_url_roundtrip(s: Seq<char>)
    ensures
        spec_url_decode(spec_url_encode(encode_utf8(s))) == Some(s),
{
    let e = spec_url_encode(encode_utf8(s));
    lemma_url_bytes_roundtrip(encode_utf8(s));
    vstd::utf8::is_ascii_chars_encode_utf8(e);
    assert(encode_utf8(e) =~= ascii_bytes(e));
    vstd::utf8::encode_utf8_valid_utf8(s);
    vstd::utf8::encode_utf8_decode_utf8(s);
}

} // verus!
