//! The code converter: recognising what kind of encoded text an input is,
//! decoding it, and encoding plain text in every supported way.
use vstd::prelude::*;
use vstd::utf8::{encode_utf8, valid_utf8, decode_utf8};
use crate::strings::{
    spec_trim, spec_split, spec_starts_with, spec_ends_with, spec_contains, spec_replace,
    spec_split_ws, str_upper, utf8_lossy, spec_join, views, vviews, is_alnum,
    is_hex_digit, chars_of, trim, string_of, split_char, replace, contains, contains_char,
    split_whitespace, copy_str, to_uppercase, std_from_utf8, std_from_utf8_lossy,
    std_char_from_u32, std_push_char, push_str, push_chars, join, char_is_alnum,
    char_is_hex_digit, matches_at, lemma_trim_idempotent, lemma_trim_subrange, lemma_split_len_contains, lemma_replace_absent,
    lemma_replace_concat, lemma_split_ws_trailing, lemma_split_ws_word, is_ws, occurs_at,
    lemma_trim_clean, upper_seq, ascii_upper,
};
use crate::numbers::{
    spec_parse_hex_u32, parse_hex_u32, hex_digits, pad4, hex4, is_upper_hex, all_upper_hex,
    lemma_pad4_hex_roundtrip,
};
use crate::codecs::{
    Base64Error, spec_b64_decode_with, spec_b64_encode_with, lemma_b64_encode_injective,
    lemma_b64_decode_encode, lemma_b64_encode_len, lemma_b64_pad_split, b64_pad_len,
    spec_b64_encode_nopad, spec_hex_decode,
    spec_hex_encode, spec_url_decode, spec_url_encode, spec_html_decode, spec_html_encode,
    spec_b64_encode, spec_json_pretty, spec_json_string, b64_url_safe_decode, b64_standard_decode,
    hex_decode, hex_encode, url_decode, url_encode, html_decode, html_encode, b64_standard_encode,
    json_pretty, json_string, lemma_url_roundtrip, ascii_bytes, hex_lower_char, hex_byte_val,
    is_hex_byte,
};
use crate::alfred::{AlfredItem, item_is};

verus! {

/// What kind of encoded text an input is.
#[derive(Copy, Clone, Debug, PartialEq, Eq, Structural)]
pub enum InputType {
    Jwt,
    HtmlEntity,
    UnicodePoints,
    UnicodeEscaped,
    Hex,
    Url,
    Base64,
    Text,
}

/// The number of bytes of the UTF-8 encoding of `s`, as `str::len` reports it.
pub open spec fn byte_len(s: Seq<char>) -> usize {
    encode_utf8(s).len() as usize
}

// ---------------------------------------------------------------------------
// Forgiving Base64
// ---------------------------------------------------------------------------

/// `s` trimmed and padded with `=` to a multiple of four bytes.
pub open spec fn b64_padded(s: Seq<char>) -> Seq<char> {
    let t = spec_trim(s);
    let rem = byte_len(t) % 4;
    if rem == 0 {
        t
    } else {
        t + Seq::new((4 - rem) as nat, |i: int| '=')
    }
}

/// The bytes of `s` read as Base64: trimmed, padded, and read with the URL-safe
/// alphabet, or else with the standard one.
pub open spec fn spec_b64_forgiving(s: Seq<char>) -> Option<Seq<u8>> {
    let p = b64_padded(s);
    match spec_b64_decode_with(p, true) {
        Some(b) => Some(b),
        None => spec_b64_decode_with(p, false),
    }
}

/// Decodes Base64 that may use the URL-safe alphabet and may lack its
/// padding (as the payload of a JWT does). The error is the one of the
/// standard alphabet's attempt.
pub fn decode_base64_forgiving(input: &str) -> (r: Result<Vec<u8>, Base64Error>)
    ensures
        r is Ok <==> spec_b64_forgiving(input@) is Some,
        r matches Ok(v) ==> Some(v@) == spec_b64_forgiving(input@),
{
    let cs = chars_of(input);
    let t = trim(cs.as_slice());
    let mut padded = string_of(t.as_slice());
    let rem = padded.as_str().len() % 4;
    if rem != 0 {
        let n = 4 - rem;
        let ghost start = padded@;
        let mut k: usize = 0;
        while k < n
            invariant
                0 <= k <= n <= 4,
                padded@ == start + Seq::new(k as nat, |i: int| '='),
            decreases n - k,
        {
            std_push_char(&mut padded, '=');
            assert(padded@ =~= start + Seq::new((k + 1) as nat, |i: int| '='));
            k = k + 1;
        }
    }
    assert(padded@ == b64_padded(input@));
    match b64_url_safe_decode(padded.as_str()) {
        Ok(v) => {
            proof {
                let c = choose|c: Seq<u8>| spec_b64_encode_with(c, true) == padded@;
                lemma_b64_encode_injective(c, v@, true, true);
            }
            Ok(v)
        },
        Err(_) => {
            let r = b64_standard_decode(padded.as_str());
            proof {
                if r is Ok {
                    let c = choose|c: Seq<u8>| spec_b64_encode_with(c, false) == padded@;
                    lemma_b64_encode_injective(c, r->Ok_0@, false, false);
                }
            }
            r
        },
    }
}

// ---------------------------------------------------------------------------
// Recognising the input
// ---------------------------------------------------------------------------

/// `s` without `U+`, `u+` and spaces.
pub open spec fn unicode_plain(s: Seq<char>) -> Seq<char> {
    spec_replace(
        spec_replace(spec_replace(s, seq!['U', '+'], Seq::empty()), seq!['u', '+'], Seq::empty()),
        seq![' '],
        Seq::empty(),
    )
}

pub open spec fn all_hex_chars(s: Seq<char>) -> bool {
    forall|i: int| 0 <= i < s.len() ==> is_hex_digit(#[trigger] s[i])
}

pub open spec fn is_b64_char(c: char) -> bool {
    is_alnum(c) || c == '+' || c == '/' || c == '=' || c == '-' || c == '_'
}

pub open spec fn all_b64_chars(s: Seq<char>) -> bool {
    forall|i: int| 0 <= i < s.len() ==> is_b64_char(#[trigger] s[i])
}

pub open spec fn looks_like_jwt(t: Seq<char>) -> bool {
    &&& spec_split(t, '.').len() == 3
    &&& byte_len(t) > 20
    &&& spec_b64_forgiving(spec_split(t, '.')[1]) is Some
}

pub open spec fn looks_like_unicode_points(t: Seq<char>) -> bool {
    spec_starts_with(str_upper(t), seq!['U', '+']) && all_hex_chars(unicode_plain(t))
}

pub open spec fn looks_like_url(t: Seq<char>) -> bool {
    &&& spec_contains(t, seq!['%'])
    &&& spec_url_decode(t) is Some
    &&& spec_url_decode(t)->0 != t
}

pub open spec fn looks_like_hex(t: Seq<char>) -> bool {
    &&& byte_len(t) > 2
    &&& byte_len(t) % 2 == 0
    &&& all_hex_chars(t)
    &&& spec_hex_decode(encode_utf8(t)) is Some
    &&& valid_utf8(spec_hex_decode(encode_utf8(t))->0)
}

pub open spec fn looks_like_base64(t: Seq<char>) -> bool {
    &&& byte_len(t) > 4
    &&& byte_len(t) % 4 == 0
    &&& all_b64_chars(t)
    &&& spec_b64_forgiving(t) is Some
    &&& valid_utf8(spec_b64_forgiving(t)->0)
    &&& (spec_contains(t, seq!['=']) || byte_len(t) > 8)
}

/// The kind of the trimmed input, by the first test that it passes, in this
/// order: JWT, HTML entity, Unicode code points, Unicode escapes, percent
/// encoding, hexadecimal UTF-8, Base64; plain text otherwise.
pub open spec fn spec_detect_type(input: Seq<char>) -> InputType {
    let t = spec_trim(input);
    if looks_like_jwt(t) {
        InputType::Jwt
    } else if spec_starts_with(t, seq!['&']) && spec_ends_with(t, seq![';']) {
        InputType::HtmlEntity
    } else if looks_like_unicode_points(t) {
        InputType::UnicodePoints
    } else if spec_contains(t, seq!['\\', 'u']) {
        InputType::UnicodeEscaped
    } else if looks_like_url(t) {
        InputType::Url
    } else if looks_like_hex(t) {
        InputType::Hex
    } else if looks_like_base64(t) {
        InputType::Base64
    } else {
        InputType::Text
    }
}

fn all_hex_vec(cs: &[char]) -> (r: bool)
    ensures
        r == all_hex_chars(cs@),
{
    let mut i: usize = 0;
    while i < cs.len()
        invariant
            0 <= i <= cs.len(),
            forall|k: int| 0 <= k < i ==> is_hex_digit(#[trigger] cs@[k]),
        decreases cs.len() - i,
    {
        if !char_is_hex_digit(cs[i]) {
            return false;
        }
        i = i + 1;
    }
    true
}

fn all_b64_vec(cs: &[char]) -> (r: bool)
    ensures
        r == all_b64_chars(cs@),
{
    let mut i: usize = 0;
    while i < cs.len()
        invariant
            0 <= i <= cs.len(),
            forall|k: int| 0 <= k < i ==> is_b64_char(#[trigger] cs@[k]),
        decreases cs.len() - i,
    {
        let c = cs[i];
        if !(char_is_alnum(c) || c == '+' || c == '/' || c == '=' || c == '-' || c == '_') {
            assert(!is_b64_char(cs@[i as int]));
            return false;
        }
        i = i + 1;
    }
    true
}

fn is_jwt(t: &[char], tlen: usize) -> (r: bool)
    requires
        tlen == byte_len(t@),
    ensures
        r == looks_like_jwt(t@),
{
    let parts = split_char(t, '.');
    if parts.len() == 3 && tlen > 20 {
        let payload = string_of(parts[1].as_slice());
        decode_base64_forgiving(payload.as_str()).is_ok()
    } else {
        false
    }
}

fn is_unicode_points(t: &[char], tstr: &str) -> (r: bool)
    requires
        tstr@ == t@,
    ensures
        r == looks_like_unicode_points(t@),
{
    let upper = to_uppercase(tstr);
    let up = chars_of(upper.as_str());
    let prefix = ['U', '+'];
    if !matches_at(up.as_slice(), prefix.as_slice(), 0) {
        assert(prefix@ =~= seq!['U', '+']);
        return false;
    }
    assert(prefix@ =~= seq!['U', '+']);
    let empty: Vec<char> = Vec::new();
    let p1 = ['U', '+'];
    let p2 = ['u', '+'];
    let p3 = [' '];
    let a = replace(t, p1.as_slice(), empty.as_slice());
    let b = replace(a.as_slice(), p2.as_slice(), empty.as_slice());
    let c = replace(b.as_slice(), p3.as_slice(), empty.as_slice());
    assert(p1@ =~= seq!['U', '+']);
    assert(p2@ =~= seq!['u', '+']);
    assert(p3@ =~= seq![' ']);
    all_hex_vec(c.as_slice())
}

fn is_url(t: &[char], tstr: &str) -> (r: bool)
    requires
        tstr@ == t@,
    ensures
        r == looks_like_url(t@),
{
    if !contains_char(t, '%') {
        return false;
    }
    match url_decode(tstr) {
        Some(d) => {
            let dc = chars_of(d.as_str());
            !crate::strings::seq_eq(dc.as_slice(), t)
        },
        None => false,
    }
}

fn is_hex(t: &[char], tstr: &str, tlen: usize) -> (r: bool)
    requires
        tstr@ == t@,
        tlen == byte_len(t@),
    ensures
        r == looks_like_hex(t@),
{
    if tlen > 2 && tlen % 2 == 0 && all_hex_vec(t) {
        match hex_decode(tstr) {
            Some(bytes) => std_from_utf8(bytes.as_slice()).is_some(),
            None => false,
        }
    } else {
        false
    }
}

fn is_base64(t: &[char], tstr: &str, tlen: usize) -> (r: bool)
    requires
        tstr@ == t@,
        tlen == byte_len(t@),
    ensures
        r == looks_like_base64(t@),
{
    if tlen > 4 && tlen % 4 == 0 && all_b64_vec(t) {
        match decode_base64_forgiving(tstr) {
            Ok(bytes) => {
                if std_from_utf8(bytes.as_slice()).is_some() {
                    contains_char(t, '=') || tlen > 8
                } else {
                    false
                }
            },
            Err(_) => false,
        }
    } else {
        false
    }
}

/// Recognises what kind of encoded text `input` is ("48656C6C6F" is
/// hexadecimal, "aGVsbG8=" Base64, "&lt;div&gt;" an HTML entity).
pub fn detect_type(input: &str) -> (r: InputType)
    ensures
        r == spec_detect_type(input@),
{
    let cs = chars_of(input);
    let t = trim(cs.as_slice());
    let tstr = string_of(t.as_slice());
    let tlen = tstr.as_str().len();
    if is_jwt(t.as_slice(), tlen) {
        return InputType::Jwt;
    }
    let n = t.len();
    if n > 0 && t[0] == '&' && t[n - 1] == ';' {
        assert(t@.subrange(0, 1) =~= seq!['&']);
        assert(t@.subrange(n - 1, n as int) =~= seq![';']);
        return InputType::HtmlEntity;
    }
    assert(!(spec_starts_with(t@, seq!['&']) && spec_ends_with(t@, seq![';']))) by {
        if spec_starts_with(t@, seq!['&']) && spec_ends_with(t@, seq![';']) {
            assert(t@.subrange(0, 1)[0] == t@[0]);
            assert(t@.subrange(n - 1, n as int)[0] == t@[n - 1]);
        }
    }
    if is_unicode_points(t.as_slice(), tstr.as_str()) {
        return InputType::UnicodePoints;
    }
    let esc = ['\\', 'u'];
    assert(esc@ =~= seq!['\\', 'u']);
    if contains(t.as_slice(), esc.as_slice()) {
        return InputType::UnicodeEscaped;
    }
    if is_url(t.as_slice(), tstr.as_str()) {
        return InputType::Url;
    }
    if is_hex(t.as_slice(), tstr.as_str(), tlen) {
        return InputType::Hex;
    }
    if is_base64(t.as_slice(), tstr.as_str(), tlen) {
        return InputType::Base64;
    }
    InputType::Text
}


// ---------------------------------------------------------------------------
// Decoding
// ---------------------------------------------------------------------------

/// `s` with `U+`, `u+`, `U`, `u` and `+` each replaced by a space.
pub open spec fn unicode_cleaned(s: Seq<char>) -> Seq<char> {
    spec_replace(
        spec_replace(
            spec_replace(
                spec_replace(spec_replace(s, seq!['U', '+'], seq![' ']), seq!['u', '+'], seq![' ']),
                seq!['U'],
                seq![' '],
            ),
            seq!['u'],
            seq![' '],
        ),
        seq!['+'],
        seq![' '],
    )
}

pub open spec fn is_scalar_value(v: u32) -> bool {
    v < 0xD800 || (0xE000 <= v && v <= 0x10FFFF)
}

/// The character that a piece of hexadecimal digits names, if any.
pub open spec fn code_point_piece(p: Seq<char>) -> Seq<char> {
    match spec_parse_hex_u32(p) {
        Some(v) => if is_scalar_value(v) {
            seq![v as char]
        } else {
            Seq::empty()
        },
        None => Seq::empty(),
    }
}

pub open spec fn code_point_pieces(parts: Seq<Seq<char>>) -> Seq<Seq<char>> {
    parts.map_values(|p: Seq<char>| code_point_piece(p))
}

/// The characters named by the hexadecimal code points in `s` ("U+4F60
/// U+597D"); pieces that name no character are skipped.
pub open spec fn spec_decode_points(s: Seq<char>) -> Seq<char> {
    code_point_pieces(spec_split_ws(unicode_cleaned(s))).flatten()
}

fn decode_points(input: &[char]) -> (r: String)
    ensures
        r@ == spec_decode_points(input@),
{
    let p1 = ['U', '+'];
    let p2 = ['u', '+'];
    let p3 = ['U'];
    let p4 = ['u'];
    let p5 = ['+'];
    let sp = [' '];
    assert(p1@ =~= seq!['U', '+']);
    assert(p2@ =~= seq!['u', '+']);
    assert(p3@ =~= seq!['U']);
    assert(p4@ =~= seq!['u']);
    assert(p5@ =~= seq!['+']);
    assert(sp@ =~= seq![' ']);
    let a = replace(input, p1.as_slice(), sp.as_slice());
    let b = replace(a.as_slice(), p2.as_slice(), sp.as_slice());
    let c = replace(b.as_slice(), p3.as_slice(), sp.as_slice());
    let d = replace(c.as_slice(), p4.as_slice(), sp.as_slice());
    let e = replace(d.as_slice(), p5.as_slice(), sp.as_slice());
    let parts = split_whitespace(e.as_slice());
    let ghost ps = vviews(parts@);
    let mut r = String::new();
    let mut i: usize = 0;
    while i < parts.len()
        invariant
            0 <= i <= parts.len(),
            ps == vviews(parts@),
            r@ == code_point_pieces(ps.take(i as int)).flatten(),
        decreases parts.len() - i,
    {
        let ghost before = code_point_pieces(ps.take(i as int));
        assert(code_point_pieces(ps.take(i + 1)) =~= before.push(code_point_piece(ps[i as int])));
        proof {
            before.lemma_flatten_push(code_point_piece(ps[i as int]));
        }
        match parse_hex_u32(parts[i].as_slice()) {
            Some(v) => {
                match std_char_from_u32(v) {
                    Some(ch) => {
                        proof {
                            vstd::utf8::char_u32_cast(ch, v);
                        }
                        std_push_char(&mut r, ch);
                        assert(code_point_piece(ps[i as int]) =~= seq![ch]);
                    },
                    None => {
                        assert(code_point_piece(ps[i as int]) =~= Seq::<char>::empty());
                        assert(r@ =~= r@ + Seq::<char>::empty());
                    },
                }
            },
            None => {
                assert(code_point_piece(ps[i as int]) =~= Seq::<char>::empty());
                assert(r@ =~= r@ + Seq::<char>::empty());
            },
        }
        i = i + 1;
    }
    assert(ps.take(parts.len() as int) =~= ps);
    r
}

pub open spec fn jwt_payload(input: Seq<char>) -> (Seq<char>, Seq<char>) {
    let payload = spec_split(input, '.')[1];
    match spec_b64_forgiving(payload) {
        Some(b) => if valid_utf8(b) {
            let json = decode_utf8(b);
            (
                match spec_json_pretty(json) {
                    Some(p) => p,
                    None => json,
                },
                "JWT Payload"@,
            )
        } else {
            ("Invalid JWT Payload"@, "Error"@)
        },
        None => ("Invalid JWT Payload"@, "Error"@),
    }
}

/// What decoding `input` as `ty` gives: the decoded text and a label that
/// says which conversion was made.
pub open spec fn spec_convert(input: Seq<char>, ty: InputType) -> (Seq<char>, Seq<char>) {
    match ty {
        InputType::Jwt => jwt_payload(input),
        InputType::HtmlEntity => (spec_html_decode(input), "HTML实体 → 字符"@),
        InputType::UnicodePoints => (spec_decode_points(input), "Unicode码点 → 字符"@),
        InputType::UnicodeEscaped => (
            match spec_json_string(seq!['"'] + input + seq!['"']) {
                Some(s) => s,
                None => input,
            },
            "Unicode转义序列 → 字符串"@,
        ),
        InputType::Hex => match spec_hex_decode(encode_utf8(spec_trim(input))) {
            Some(b) => (utf8_lossy(b), "UTF-8十六进制 → 字符串"@),
            None => ("Error"@, "Error"@),
        },
        InputType::Url => (
            match spec_url_decode(input) {
                Some(d) => d,
                None => input,
            },
            "URL编码 → 字符串"@,
        ),
        InputType::Base64 => match spec_b64_forgiving(input) {
            Some(b) => (utf8_lossy(b), "Base64编码 → 字符串"@),
            None => ("Error"@, "Error"@),
        },
        InputType::Text => (input, "文本"@),
    }
}

fn convert_jwt(input: &str) -> (r: (String, String))
    requires
        spec_split(input@, '.').len() >= 2,
    ensures
        (r.0@, r.1@) == jwt_payload(input@),
{
    let cs = chars_of(input);
    let parts = split_char(cs.as_slice(), '.');
    let payload = string_of(parts[1].as_slice());
    if let Ok(bytes) = decode_base64_forgiving(payload.as_str()) {
        if let Some(json) = std_from_utf8(bytes.as_slice()) {
            let pretty = match json_pretty(json.as_str()) {
                Some(p) => p,
                None => json,
            };
            return (pretty, copy_str("JWT Payload"));
        }
    }
    (copy_str("Invalid JWT Payload"), copy_str("Error"))
}

/// Decodes `input` as the kind `input_type`; the second string says which
/// conversion was made ("48656C6C6F" as hexadecimal gives "Hello"). A JWT
/// must hold at least one `.`.
pub fn convert(input: &str, input_type: &InputType) -> (r: (String, String))
    requires
        *input_type == InputType::Jwt ==> spec_split(input@, '.').len() >= 2,
    ensures
        (r.0@, r.1@) == spec_convert(input@, *input_type),
{
    match input_type {
        InputType::Jwt => convert_jwt(input),
        InputType::HtmlEntity => (html_decode(input), copy_str("HTML实体 → 字符")),
        InputType::UnicodePoints => {
            let cs = chars_of(input);
            (decode_points(cs.as_slice()), copy_str("Unicode码点 → 字符"))
        },
        InputType::UnicodeEscaped => {
            let mut quoted = String::new();
            std_push_char(&mut quoted, '"');
            push_str(&mut quoted, input);
            std_push_char(&mut quoted, '"');
            assert(quoted@ =~= seq!['"'] + input@ + seq!['"']);
            let res = match json_string(quoted.as_str()) {
                Some(s) => s,
                None => copy_str(input),
            };
            (res, copy_str("Unicode转义序列 → 字符串"))
        },
        InputType::Hex => {
            let cs = chars_of(input);
            let t = trim(cs.as_slice());
            let tstr = string_of(t.as_slice());
            match hex_decode(tstr.as_str()) {
                Some(bytes) => (
                    std_from_utf8_lossy(bytes.as_slice()),
                    copy_str("UTF-8十六进制 → 字符串"),
                ),
                None => (copy_str("Error"), copy_str("Error")),
            }
        },
        InputType::Url => {
            let res = match url_decode(input) {
                Some(d) => d,
                None => copy_str(input),
            };
            (res, copy_str("URL编码 → 字符串"))
        },
        InputType::Base64 => match decode_base64_forgiving(input) {
            Ok(bytes) => (std_from_utf8_lossy(bytes.as_slice()), copy_str("Base64编码 → 字符串")),
            Err(_) => (copy_str("Error"), copy_str("Error")),
        },
        InputType::Text => (copy_str(input), copy_str("文本")),
    }
}


// ---------------------------------------------------------------------------
// Encoding plain text
// ---------------------------------------------------------------------------

/// `U+` and at least four upper-case hexadecimal digits of a code point.
pub open spec fn code_point_label(c: char) -> Seq<char> {
    seq!['U', '+'] + pad4(hex_digits((c as u32) as nat))
}

/// The code points of `s` ("你好" gives "U+4F60 U+597D").
pub open spec fn spec_unicode_points(s: Seq<char>) -> Seq<char> {
    spec_join(Seq::new(s.len(), |i: int| code_point_label(s[i])), seq![' '])
}

/// The upper-case hexadecimal of the UTF-8 bytes of `s`.
pub open spec fn spec_hex_text(s: Seq<char>) -> Seq<char> {
    str_upper(spec_hex_encode(encode_utf8(s)))
}

/// The five encodings of plain text, in this order: code points, hexadecimal
/// UTF-8, percent encoding, Base64, HTML escapes.
pub open spec fn encodings_are(items: Seq<AlfredItem>, s: Seq<char>) -> bool {
    let pts = spec_unicode_points(s);
    let hx = spec_hex_text(s);
    let url = spec_url_encode(encode_utf8(s));
    let b64 = spec_b64_encode(encode_utf8(s));
    let html = spec_html_encode(s);
    &&& items.len() == 5
    &&& item_is(items[0], "unicode"@, pts, "Unicode码点"@, pts)
    &&& item_is(items[1], "hex"@, hx, "UTF-8十六进制"@, hx)
    &&& item_is(items[2], "url"@, url, "URL编码"@, url)
    &&& item_is(items[3], "base64"@, b64, "Base64编码"@, b64)
    &&& item_is(items[4], "html"@, html, "HTML转义"@, html)
}

fn unicode_points(input: &str) -> (r: String)
    ensures
        r@ == spec_unicode_points(input@),
{
    let cs = chars_of(input);
    let mut labels: Vec<String> = Vec::new();
    let mut i: usize = 0;
    while i < cs.len()
        invariant
            0 <= i <= cs.len(),
            cs@ == input@,
            views(labels@) =~= Seq::new(i as nat, |j: int| code_point_label(cs@[j])),
        decreases cs.len() - i,
    {
        let mut label = String::new();
        std_push_char(&mut label, 'U');
        std_push_char(&mut label, '+');
        let digits = hex4(cs[i] as u32);
        push_chars(&mut label, digits.as_slice());
        assert(label@ =~= code_point_label(cs@[i as int]));
        let ghost before = labels@;
        labels.push(label);
        assert(views(labels@) =~= views(before).push(label@));
        i = i + 1;
    }
    let sp = " ";
    proof {
        reveal_strlit(" ");
        assert(sp@ =~= seq![' ']);
    }
    join(labels.as_slice(), sp)
}

/// Every encoding of the plain text `input`, one item each.
pub fn generate_all_encodings(input: &str) -> (items: Vec<AlfredItem>)
    ensures
        encodings_are(items@, input@),
{
    let mut items: Vec<AlfredItem> = Vec::new();
    let pts = unicode_points(input);
    items.push(AlfredItem::new("unicode", pts.as_str(), "Unicode码点", pts.as_str()));
    let hex_lower = hex_encode(input);
    let hex_str = to_uppercase(hex_lower.as_str());
    items.push(AlfredItem::new("hex", hex_str.as_str(), "UTF-8十六进制", hex_str.as_str()));
    let url_str = url_encode(input);
    items.push(AlfredItem::new("url", url_str.as_str(), "URL编码", url_str.as_str()));
    let b64_str = b64_standard_encode(input);
    items.push(AlfredItem::new("base64", b64_str.as_str(), "Base64编码", b64_str.as_str()));
    let html_str = html_encode(input);
    items.push(AlfredItem::new("html", html_str.as_str(), "HTML转义", html_str.as_str()));
    items
}


// ---------------------------------------------------------------------------
// What recognition promises to decoding
// ---------------------------------------------------------------------------

/// Input recognised as hexadecimal decodes exactly: the hexadecimal digits
/// of the trimmed input are valid UTF-8, and the result is their text, with
/// no replacement characters and no error.
pub proof fn lemma_detected_hex_decodes(s: Seq<char>)
    requires
        spec_detect_type(s) == InputType::Hex,
    ensures
        spec_hex_decode(encode_utf8(spec_trim(s))) is Some,
        valid_utf8(spec_hex_decode(encode_utf8(spec_trim(s)))->0),
        spec_convert(s, InputType::Hex) == (
            decode_utf8(spec_hex_decode(encode_utf8(spec_trim(s)))->0),
            "UTF-8十六进制 → 字符串"@,
        ),
{
}

/// Input recognised as Base64 decodes exactly: its bytes are valid UTF-8,
/// and the result is their text, with no replacement characters and no
/// error.
pub proof fn lemma_detected_base64_decodes(s: Seq<char>)
    requires
        spec_detect_type(s) == InputType::Base64,
    ensures
        spec_b64_forgiving(s) is Some,
        valid_utf8(spec_b64_forgiving(s)->0),
        spec_convert(s, InputType::Base64) == (
            decode_utf8(spec_b64_forgiving(s)->0),
            "Base64编码 → 字符串"@,
        ),
{
    lemma_trim_idempotent(s);
    assert(b64_padded(spec_trim(s)) == b64_padded(s));
}


/// An input recognised as a JWT has a `.` in it, so it can be decoded as one.
pub proof fn lemma_detected_jwt_has_parts(s: Seq<char>)
    requires
        spec_detect_type(s) == InputType::Jwt,
    ensures
        spec_split(s, '.').len() >= 2,
{
    let t = spec_trim(s);
    let (lo, hi) = lemma_trim_subrange(s);
    lemma_split_len_contains(t, '.');
    lemma_split_len_contains(s, '.');
    let i = choose|i: int| 0 <= i < t.len() && t[i] == '.';
    assert(s[lo + i] == '.');
}

// ---------------------------------------------------------------------------
// What the command does
// ---------------------------------------------------------------------------

/// What the code converter does with an input.
pub enum UccAction {
    /// Nothing to convert.
    Nothing,
    /// Print these Alfred items.
    Alfred(Vec<AlfredItem>),
    /// Print the encodings of plain text as JSON items.
    EncodingsJson(Vec<AlfredItem>),
    /// Print the encodings of plain text, one per line.
    EncodingsText(Vec<AlfredItem>),
    /// Print the decoded text and its label as JSON.
    DecodedJson(String, String),
    /// Print only the decoded text.
    DecodedQuiet(String),
    /// Print the kind, the label and the decoded text.
    DecodedReport(InputType, String, String),
}

/// The Alfred items for `input` of kind `ty`: every encoding of plain text,
/// or the one decoded result.
pub open spec fn ucc_items_are(items: Seq<AlfredItem>, input: Seq<char>, ty: InputType) -> bool {
    if ty == InputType::Text {
        encodings_are(items, input)
    } else {
        let (res, info) = spec_convert(input, ty);
        items.len() == 1 && item_is(items[0], "result"@, res, info, res)
    }
}

/// The arguments of the code converter.
pub struct UccArgs {
    /// The words of the input, if given on the command line.
    pub input: Option<Vec<String>>,
    /// A format (its presence turns the encodings listing off).
    pub format: Option<String>,
    /// Answer with Alfred items.
    pub alfred: bool,
    /// Answer with JSON.
    pub json: bool,
    /// Print only the result.
    pub quiet: bool,
}

/// Whether the code converter answers with Alfred items: Alfred mode is
/// asked for or the output is no terminal, and neither JSON, quiet output
/// nor a format is asked for.
pub open spec fn ucc_alfred_mode(args: &UccArgs, stdout_is_terminal: bool) -> bool {
    (args.alfred || !stdout_is_terminal) && !args.json && !args.quiet && args.format is None
}

/// What the code converter does: in Alfred mode it offers items; plain text
/// with no format gets every encoding; anything else is decoded as the kind
/// it is recognised as.
pub fn ucc_plan(args: &UccArgs, input: &str, stdout_is_terminal: bool) -> (r: UccAction)
    ensures
        ({
            let alfred = ucc_alfred_mode(args, stdout_is_terminal);
            let ty = spec_detect_type(input@);
            let listing = ty == InputType::Text && args.format is None;
            let (res, info) = spec_convert(input@, ty);
            &&& input@.len() == 0 ==> r is Nothing
            &&& input@.len() > 0 && alfred ==> (r matches UccAction::Alfred(items)
                && ucc_items_are(items@, input@, ty))
            &&& input@.len() > 0 && !alfred && listing && args.json ==> (
            r matches UccAction::EncodingsJson(items) && encodings_are(items@, input@))
            &&& input@.len() > 0 && !alfred && listing && !args.json ==> (
            r matches UccAction::EncodingsText(items) && encodings_are(items@, input@))
            &&& input@.len() > 0 && !alfred && !listing && args.json ==> (
            r matches UccAction::DecodedJson(a, b) && a@ == res && b@ == info)
            &&& input@.len() > 0 && !alfred && !listing && !args.json && args.quiet ==> (
            r matches UccAction::DecodedQuiet(a) && a@ == res)
            &&& input@.len() > 0 && !alfred && !listing && !args.json && !args.quiet ==> (
            r matches UccAction::DecodedReport(t, a, b) && t == ty && a@ == res && b@ == info)
        }),
{
    if input.is_empty() {
        return UccAction::Nothing;
    }
    let input_type = detect_type(input);
    proof {
        if input_type == InputType::Jwt {
            lemma_detected_jwt_has_parts(input@);
        }
    }
    let json = args.json;
    let quiet = args.quiet;
    let format_given = args.format.is_some();
    let is_alfred = crate::alfred::is_alfred_env(args.alfred, stdout_is_terminal) && !json && !quiet
        && !format_given;
    if is_alfred {
        let items = if input_type == InputType::Text {
            generate_all_encodings(input)
        } else {
            let (res, info) = convert(input, &input_type);
            let mut v: Vec<AlfredItem> = Vec::new();
            v.push(AlfredItem::new("result", res.as_str(), info.as_str(), res.as_str()));
            v
        };
        return UccAction::Alfred(items);
    }
    if input_type == InputType::Text && !format_given {
        let items = generate_all_encodings(input);
        if json {
            UccAction::EncodingsJson(items)
        } else {
            UccAction::EncodingsText(items)
        }
    } else {
        let (res, info) = convert(input, &input_type);
        if json {
            UccAction::DecodedJson(res, info)
        } else if quiet {
            UccAction::DecodedQuiet(res)
        } else {
            UccAction::DecodedReport(input_type, res, info)
        }
    }
}


// ---------------------------------------------------------------------------
// The code points of a text read back as the text
// ---------------------------------------------------------------------------

/// The hexadecimal digits of the `i`-th character of `s`.
pub open spec fn point_digits(s: Seq<char>, i: int) -> Seq<char> {
    pad4(hex_digits((s[i] as u32) as nat))
}

pub open spec fn labels(s: Seq<char>) -> Seq<Seq<char>> {
    Seq::new(s.len(), |i: int| code_point_label(s[i]))
}

/// What the code points of the first `k` characters become once `U+` is
/// replaced by a space.
pub open spec fn spaced_points(s: Seq<char>, k: nat) -> Seq<char> {
    spec_join(Seq::new(k, |i: int| seq![' '] + point_digits(s, i)), seq![' '])
}

proof fn lemma_point_digits(s: Seq<char>, i: int)
    requires
        0 <= i < s.len(),
    ensures
        point_digits(s, i).len() > 0,
        all_upper_hex(point_digits(s, i)),
        spec_parse_hex_u32(point_digits(s, i)) == Some(s[i] as u32),
{
    lemma_pad4_hex_roundtrip(s[i] as u32);
}

proof fn lemma_spaced_chars(s: Seq<char>, k: nat)
    requires
        k <= s.len(),
    ensures
        forall|j: int|
            0 <= j < spaced_points(s, k).len() ==> #[trigger] spaced_points(s, k)[j] == ' '
                || is_upper_hex(spaced_points(s, k)[j]),
        k > 0 ==> spaced_points(s, k).len() > 0 && is_upper_hex(spaced_points(s, k).last()),
    decreases k,
{
    let parts = Seq::new(k, |i: int| seq![' '] + point_digits(s, i));
    let r = spaced_points(s, k);
    if k == 0 {
    } else {
        let h = point_digits(s, k - 1);
        lemma_point_digits(s, k - 1);
        let last = seq![' '] + h;
        assert(parts.last() == last);
        if k == 1 {
            assert(r == parts[0]);
        } else {
            lemma_spaced_chars(s, (k - 1) as nat);
            assert(parts.drop_last() =~= Seq::new((k - 1) as nat, |i: int| seq![' '] + point_digits(s, i)));
            let prev = spaced_points(s, (k - 1) as nat);
            assert(r == prev + seq![' '] + last);
            assert forall|j: int| 0 <= j < r.len() implies #[trigger] r[j] == ' ' || is_upper_hex(r[j]) by {
                if j < prev.len() {
                    assert(r[j] == prev[j]);
                } else if j > prev.len() + 1 {
                    assert(r[j] == h[j - prev.len() - 2]);
                }
            }
        }
        assert(r.last() == h.last());
        assert(h.last() == h[h.len() - 1]);
    }
}

proof fn lemma_replace_u_plus(s: Seq<char>, k: nat)
    requires
        k <= s.len(),
    ensures
        spec_replace(spec_join(labels(s).take(k as int), seq![' ']), seq!['U', '+'], seq![' '])
            == spaced_points(s, k),
    decreases k,
{
    let pat = seq!['U', '+'];
    let sp = seq![' '];
    let ls = labels(s).take(k as int);
    let parts = Seq::new(k, |i: int| seq![' '] + point_digits(s, i));
    if k == 0 {
        assert(spec_join(ls, sp) =~= Seq::<char>::empty());
        assert(spaced_points(s, k) =~= Seq::<char>::empty());
    } else {
        let h = point_digits(s, k - 1);
        lemma_point_digits(s, k - 1);
        assert forall|i: int| 0 <= i < h.len() implies h[i] != pat[0] by {
            assert(is_upper_hex(h[i]));
        }
        lemma_replace_absent(h, pat, sp);
        let label = code_point_label(s[k - 1]);
        assert(ls.last() == label);
        assert(label == seq!['U', '+'] + h);
        assert(occurs_at(label, pat, 0)) by {
            assert(label.subrange(0, 2) =~= pat);
        }
        assert(label.skip(2) =~= h);
        assert(spec_replace(label, pat, sp) == sp + h);
        assert(parts.last() == sp + h);
        if k == 1 {
            assert(spec_join(ls, sp) == ls[0]);
            assert(spaced_points(s, k) == parts[0]);
        } else {
            lemma_replace_u_plus(s, (k - 1) as nat);
            lemma_spaced_chars(s, (k - 1) as nat);
            let prev_ls = labels(s).take(k - 1);
            assert(ls.drop_last() =~= prev_ls);
            let pj = spec_join(prev_ls, sp);
            assert(spec_join(ls, sp) == pj + sp + label);
            // the joined labels end with a digit of the previous character
            let ph = point_digits(s, k - 2);
            lemma_point_digits(s, k - 2);
            assert(prev_ls.last() == code_point_label(s[k - 2]));
            assert(pj.last() == prev_ls.last().last()) by {
                if k - 1 == 1 {
                    assert(pj == prev_ls[0]);
                } else {
                    assert(pj == spec_join(prev_ls.drop_last(), sp) + sp + prev_ls.last());
                }
            }
            assert(code_point_label(s[k - 2]).last() == ph.last());
            assert(is_upper_hex(ph[ph.len() - 1]));
            lemma_replace_concat(pj, sp, pat, sp);
            lemma_replace_concat(pj + sp, label, pat, sp);
            assert(spec_replace(sp, pat, sp) == sp) by {
                lemma_replace_absent(sp, pat, sp);
            }
            assert(parts.drop_last() =~= Seq::new((k - 1) as nat, |i: int| seq![' '] + point_digits(s, i)));
            assert(spaced_points(s, k) == spaced_points(s, (k - 1) as nat) + sp + (sp + h));
        }
    }
}

proof fn lemma_split_spaced(s: Seq<char>, k: nat)
    requires
        k <= s.len(),
    ensures
        spec_split_ws(spaced_points(s, k)) == Seq::new(k, |i: int| point_digits(s, i)),
    decreases k,
{
    let sp = seq![' '];
    let parts = Seq::new(k, |i: int| sp + point_digits(s, i));
    if k == 0 {
        assert(spaced_points(s, k) =~= Seq::<char>::empty());
        assert(Seq::new(k, |i: int| point_digits(s, i)) =~= Seq::<Seq<char>>::empty());
    } else {
        let h = point_digits(s, k - 1);
        lemma_point_digits(s, k - 1);
        assert forall|i: int| 0 <= i < h.len() implies !is_ws(#[trigger] h[i]) by {
            assert(is_upper_hex(h[i]));
        }
        if k == 1 {
            assert(spaced_points(s, k) == parts[0]);
            assert(Seq::<char>::empty().push(' ') =~= sp);
            lemma_split_ws_trailing(Seq::<char>::empty(), ' ');
            lemma_split_ws_word(sp, h);
            assert(spec_split_ws(Seq::<char>::empty()) =~= Seq::<Seq<char>>::empty());
            assert(Seq::<Seq<char>>::empty().push(h) =~= Seq::new(k, |i: int| point_digits(s, i)));
        } else {
            lemma_split_spaced(s, (k - 1) as nat);
            assert(parts.drop_last() =~= Seq::new((k - 1) as nat, |i: int| sp + point_digits(s, i)));
            let prev = spaced_points(s, (k - 1) as nat);
            let y = prev.push(' ').push(' ');
            assert(spaced_points(s, k) =~= y + h);
            lemma_split_ws_trailing(prev, ' ');
            lemma_split_ws_trailing(prev.push(' '), ' ');
            lemma_split_ws_word(y, h);
            assert(Seq::new((k - 1) as nat, |i: int| point_digits(s, i)).push(h) =~= Seq::new(
                k,
                |i: int| point_digits(s, i),
            ));
        }
    }
}

proof fn lemma_pieces_give_text(s: Seq<char>, k: nat)
    requires
        k <= s.len(),
    ensures
        code_point_pieces(Seq::new(k, |i: int| point_digits(s, i))).flatten() == s.take(k as int),
    decreases k,
{
    let ps = code_point_pieces(Seq::new(k, |i: int| point_digits(s, i)));
    if k == 0 {
        assert(ps =~= Seq::<Seq<char>>::empty());
        assert(s.take(0) =~= Seq::<char>::empty());
    } else {
        lemma_pieces_give_text(s, (k - 1) as nat);
        let prev = code_point_pieces(Seq::new((k - 1) as nat, |i: int| point_digits(s, i)));
        lemma_point_digits(s, k - 1);
        let c = s[k - 1];
        vstd::utf8::char_is_scalar(c);
        vstd::utf8::char_u32_cast(c, c as u32);
        assert(code_point_piece(point_digits(s, k - 1)) == seq![c]);
        assert(ps =~= prev.push(seq![c]));
        prev.lemma_flatten_push(seq![c]);
        assert(s.take(k - 1).push(c) =~= s.take(k as int));
    }
}

/// The code points that the encodings list for a text read back as that
/// text: `U+XXXX` labels decode to the characters they name.
pub proof fn lemma_unicode_points_roundtrip(s: Seq<char>)
    ensures
        spec_decode_points(spec_unicode_points(s)) == s,
{
    let n = s.len();
    let sp = seq![' '];
    assert(labels(s).take(n as int) =~= labels(s));
    assert(spec_unicode_points(s) == spec_join(labels(s), sp)) by {
        assert(labels(s) =~= Seq::new(s.len(), |i: int| code_point_label(s[i])));
    }
    lemma_replace_u_plus(s, n);
    let r = spaced_points(s, n);
    lemma_spaced_chars(s, n);
    assert forall|i: int| 0 <= i < r.len() implies r[i] != 'u' && r[i] != 'U' && r[i] != '+' by {
        assert(r[i] == ' ' || is_upper_hex(r[i]));
    }
    lemma_replace_absent(r, seq!['u', '+'], sp);
    lemma_replace_absent(r, seq!['U'], sp);
    lemma_replace_absent(r, seq!['u'], sp);
    lemma_replace_absent(r, seq!['+'], sp);
    assert(unicode_cleaned(spec_unicode_points(s)) == r);
    lemma_split_spaced(s, n);
    lemma_pieces_give_text(s, n);
    assert(s.take(n as int) =~= s);
}

/// The percent encoding that the encodings list for a text decodes back to
/// that text.
pub proof fn lemma_url_item_roundtrip(s: Seq<char>)
    ensures
        spec_convert(spec_url_encode(encode_utf8(s)), InputType::Url).0 == s,
{
    lemma_url_roundtrip(s);
}


proof fn lemma_upper_hex_lower_char(d: int)
    requires
        0 <= d < 16,
    ensures
        '\0' <= hex_lower_char(d) <= '\u{7f}',
        '\0' <= ascii_upper(hex_lower_char(d)) <= '\u{7f}',
        is_hex_byte(ascii_upper(hex_lower_char(d)) as u8),
        hex_byte_val(ascii_upper(hex_lower_char(d)) as u8) == d,
        !is_ws(ascii_upper(hex_lower_char(d))),
{
}

/// The upper-case hexadecimal that the encodings list for a text decodes
/// back to that text.
pub proof fn lemma_hex_item_roundtrip(s: Seq<char>)
    ensures
        spec_convert(spec_hex_text(s), InputType::Hex).0 == s,
{
    let b = encode_utf8(s);
    let e = spec_hex_encode(b);
    assert forall|i: int| 0 <= i < e.len() implies '\0' <= #[trigger] e[i] <= '\u{7f}' by {
        lemma_upper_hex_lower_char(b[i / 2] as int / 16);
        lemma_upper_hex_lower_char(b[i / 2] as int % 16);
    }
    assert(vstd::utf8::is_ascii_chars(e));
    let u = upper_seq(e);
    assert(spec_hex_text(s) == u);
    assert forall|i: int| 0 <= i < u.len() implies '\0' <= #[trigger] u[i] <= '\u{7f}'
        && !is_ws(u[i]) by {
        lemma_upper_hex_lower_char(b[i / 2] as int / 16);
        lemma_upper_hex_lower_char(b[i / 2] as int % 16);
    }
    lemma_trim_clean(u);
    vstd::utf8::is_ascii_chars_encode_utf8(u);
    let bytes = encode_utf8(u);
    assert(bytes =~= ascii_bytes(u));
    assert forall|i: int| 0 <= i < bytes.len() implies is_hex_byte(#[trigger] bytes[i]) by {
        lemma_upper_hex_lower_char(b[i / 2] as int / 16);
        lemma_upper_hex_lower_char(b[i / 2] as int % 16);
    }
    assert(bytes.len() % 2 == 0);
    let decoded = spec_hex_decode(bytes)->0;
    assert(decoded =~= b) by {
        assert forall|i: int| 0 <= i < b.len() implies #[trigger] decoded[i] == b[i] by {
            lemma_upper_hex_lower_char(b[i] as int / 16);
            lemma_upper_hex_lower_char(b[i] as int % 16);
            assert(bytes[2 * i] == u[2 * i] as u8);
            assert(bytes[2 * i + 1] == u[2 * i + 1] as u8);
            assert((2 * i) / 2 == i);
            assert((2 * i + 1) / 2 == i);
            assert((2 * i) % 2 == 0);
            assert((2 * i + 1) % 2 == 1);
        }
    }
    vstd::utf8::encode_utf8_valid_utf8(s);
    vstd::utf8::encode_utf8_decode_utf8(s);
}

/// The Base64 that the encodings list for a text decodes back to that text
/// (for every text whose Base64 fits in memory).
pub proof fn lemma_base64_item_roundtrip(s: Seq<char>)
    requires
        spec_b64_encode(encode_utf8(s)).len() <= usize::MAX,
    ensures
        spec_convert(spec_b64_encode(encode_utf8(s)), InputType::Base64).0 == s,
{
    let b = encode_utf8(s);
    let e = spec_b64_encode_with(b, false);
    lemma_b64_encode_len(b, false);
    assert forall|i: int| 0 <= i < e.len() implies '\0' <= #[trigger] e[i] <= '\u{7f}'
        && !is_ws(e[i]) by {
        assert('+' <= e[i] <= 'z');
    }
    lemma_trim_clean(e);
    assert(vstd::utf8::is_ascii_chars(e));
    vstd::utf8::is_ascii_chars_encode_utf8(e);
    assert(encode_utf8(e) =~= ascii_bytes(e));
    assert(spec_trim(e) == e);
    assert(encode_utf8(e).len() == e.len());
    assert(byte_len(e) == e.len());
    assert(b64_padded(e) == e);
    lemma_b64_decode_encode(b, false);
    if spec_b64_decode_with(e, true) is Some {
        let c = choose|c: Seq<u8>| spec_b64_encode_with(c, true) == e;
        lemma_b64_encode_injective(c, b, true, false);
    }
    assert(spec_b64_forgiving(e) == Some(b));
    vstd::utf8::encode_utf8_valid_utf8(s);
    vstd::utf8::encode_utf8_decode_utf8(s);
}

/// Forgiving Base64 reads every common encoding of any bytes: the URL-safe
/// and the standard alphabet, with or without padding (for every encoding
/// that fits in memory).
pub proof fn lemma_forgiving_reads_every_encoding(b: Seq<u8>, url_safe: bool, padded: bool)
    requires
        spec_b64_encode_with(b, url_safe).len() <= usize::MAX,
    ensures
        spec_b64_forgiving(
            if padded {
                spec_b64_encode_with(b, url_safe)
            } else {
                spec_b64_encode_nopad(b, url_safe)
            },
        ) == Some(b),
{
    let e = spec_b64_encode_with(b, url_safe);
    let k = b64_pad_len(b.len());
    let x = if padded {
        e
    } else {
        spec_b64_encode_nopad(b, url_safe)
    };
    lemma_b64_encode_len(b, url_safe);
    lemma_b64_pad_split(b, url_safe);
    assert(x.len() <= e.len());
    assert forall|i: int| 0 <= i < x.len() implies '\0' <= #[trigger] x[i] <= '\u{7f}'
        && !is_ws(x[i]) by {
        assert(x[i] == e[i]);
        assert('+' <= e[i] <= 'z');
    }
    lemma_trim_clean(x);
    assert(vstd::utf8::is_ascii_chars(x));
    vstd::utf8::is_ascii_chars_encode_utf8(x);
    assert(encode_utf8(x) =~= ascii_bytes(x));
    assert(byte_len(x) == x.len());
    if padded || k == 0 {
        assert(x =~= e);
        assert(b64_padded(x) == e);
    } else {
        assert(x.len() == e.len() - k);
        assert(x.len() % 4 == 4 - k);
        assert(b64_padded(x) =~= e) by {
            let pads = Seq::new(k, |i: int| '=');
            assert(b64_padded(x) == x + pads);
            assert forall|i: int| 0 <= i < e.len() implies #[trigger] (x + pads)[i] == e[i] by {
                if i >= x.len() {
                    assert(e[i] == '=');
                }
            }
        }
    }
    lemma_b64_decode_encode(b, url_safe);
    lemma_b64_decode_encode(b, false);
    if spec_b64_decode_with(e, true) is Some {
        let c = choose|c: Seq<u8>| spec_b64_encode_with(c, true) == e;
        lemma_b64_encode_injective(c, b, true, url_safe);
    }
    assert(spec_b64_forgiving(x) == Some(b));
}

proof fn lemma_hex_digit_char(c: char)
    requires
        is_hex_digit(c),
    ensures
        '\0' <= c <= '\u{7f}',
        !is_ws(c),
        c != '.' && c != '&' && c != '\\' && c != '%' && c != '+',
        ascii_upper(c) != '+',
        is_hex_digit(ascii_upper(c)),
        '\0' <= ascii_upper(c) <= '\u{7f}',
        is_hex_byte(c as u8),
        is_hex_byte(ascii_upper(c) as u8),
        hex_byte_val(ascii_upper(c) as u8) == hex_byte_val(c as u8),
{
}

/// A text of hexadecimal digits, in either case, is read as its UTF-8 bytes
/// whatever the case of its letters.
pub proof fn lemma_hex_decode_ignores_case(s: Seq<char>)
    requires
        all_hex_chars(s),
    ensures
        all_hex_chars(upper_seq(s)),
        spec_hex_decode(encode_utf8(upper_seq(s))) == spec_hex_decode(encode_utf8(s)),
{
    let u = upper_seq(s);
    assert forall|i: int| 0 <= i < s.len() implies '\0' <= #[trigger] s[i] <= '\u{7f}' && is_hex_digit(
        u[i],
    ) && '\0' <= u[i] <= '\u{7f}' by {
        lemma_hex_digit_char(s[i]);
    }
    assert(vstd::utf8::is_ascii_chars(s));
    assert(vstd::utf8::is_ascii_chars(u));
    vstd::utf8::is_ascii_chars_encode_utf8(s);
    vstd::utf8::is_ascii_chars_encode_utf8(u);
    let bs = encode_utf8(s);
    let bu = encode_utf8(u);
    assert(bs =~= ascii_bytes(s));
    assert(bu =~= ascii_bytes(u));
    assert forall|i: int| 0 <= i < bs.len() implies is_hex_byte(#[trigger] bs[i]) && is_hex_byte(bu[i])
        && hex_byte_val(bu[i]) == hex_byte_val(bs[i]) by {
        lemma_hex_digit_char(s[i]);
    }
    if bs.len() % 2 == 0 {
        assert(spec_hex_decode(bu)->0 =~= spec_hex_decode(bs)->0);
    }
}

/// Every text of more than two hexadecimal digits, an even number of them in
/// either case, whose bytes are UTF-8 is recognised as hexadecimal UTF-8
/// (for every text that fits in memory).
pub proof fn lemma_hex_text_detected(s: Seq<char>)
    requires
        all_hex_chars(s),
        s.len() > 2,
        s.len() % 2 == 0,
        s.len() <= usize::MAX,
        valid_utf8(spec_hex_decode(encode_utf8(s))->0),
    ensures
        spec_detect_type(s) == InputType::Hex,
{
    assert forall|i: int| 0 <= i < s.len() implies '\0' <= #[trigger] s[i] <= '\u{7f}' && !is_ws(s[i])
        && s[i] != '.' && s[i] != '&' && s[i] != '\\' && s[i] != '%' && is_hex_byte(s[i] as u8) by {
        lemma_hex_digit_char(s[i]);
    }
    lemma_trim_clean(s);
    assert(spec_trim(s) == s);
    // no JWT: there is no dot
    lemma_split_len_contains(s, '.');
    assert(!looks_like_jwt(s));
    // no HTML entity: it does not start with `&`
    assert(!spec_starts_with(s, seq!['&'])) by {
        if spec_starts_with(s, seq!['&']) {
            assert(s.subrange(0, 1)[0] == s[0]);
        }
    }
    // no code points: the second character is no `+`
    assert(vstd::utf8::is_ascii_chars(s));
    assert(str_upper(s) == upper_seq(s));
    assert(!looks_like_unicode_points(s)) by {
        lemma_hex_digit_char(s[1]);
        if spec_starts_with(upper_seq(s), seq!['U', '+']) {
            assert(upper_seq(s).subrange(0, 2)[1] == upper_seq(s)[1]);
        }
    }
    // no escapes and no percent encoding: no `\` and no `%`
    assert(!spec_contains(s, seq!['\\', 'u'])) by {
        if spec_contains(s, seq!['\\', 'u']) {
            let i = choose|i: int| occurs_at(s, seq!['\\', 'u'], i);
            assert(s.subrange(i, i + 2)[0] == s[i]);
        }
    }
    assert(!spec_contains(s, seq!['%'])) by {
        if spec_contains(s, seq!['%']) {
            let i = choose|i: int| occurs_at(s, seq!['%'], i);
            assert(s.subrange(i, i + 1)[0] == s[i]);
        }
    }
    // hexadecimal
    vstd::utf8::is_ascii_chars_encode_utf8(s);
    assert(encode_utf8(s) =~= ascii_bytes(s));
    assert(byte_len(s) == s.len());
    assert(spec_hex_decode(encode_utf8(s)) is Some);
    assert(looks_like_hex(s));
}

/// Whether a text of hexadecimal digits is recognised as hexadecimal UTF-8
/// does not depend on the case of its letters.
pub proof fn lemma_hex_detection_ignores_case(s: Seq<char>)
    requires
        all_hex_chars(s),
        s.len() <= usize::MAX,
    ensures
        (spec_detect_type(s) == InputType::Hex) == (spec_detect_type(upper_seq(s)) == InputType::Hex),
{
    let u = upper_seq(s);
    lemma_hex_decode_ignores_case(s);
    assert(u.len() == s.len());
    let ok = s.len() > 2 && s.len() % 2 == 0 && valid_utf8(spec_hex_decode(encode_utf8(s))->0);
    if ok {
        lemma_hex_text_detected(s);
        lemma_hex_text_detected(u);
    } else {
        assert forall|i: int| 0 <= i < s.len() implies '\0' <= #[trigger] s[i] <= '\u{7f}' && !is_ws(s[i])
            && '\0' <= u[i] <= '\u{7f}' && !is_ws(u[i]) by {
            lemma_hex_digit_char(s[i]);
            lemma_hex_digit_char(u[i]);
        }
        lemma_trim_clean(s);
        lemma_trim_clean(u);
        assert(vstd::utf8::is_ascii_chars(s));
        assert(vstd::utf8::is_ascii_chars(u));
        vstd::utf8::is_ascii_chars_encode_utf8(s);
        vstd::utf8::is_ascii_chars_encode_utf8(u);
        assert(encode_utf8(s) =~= ascii_bytes(s));
        assert(encode_utf8(u) =~= ascii_bytes(u));
        assert(byte_len(s) == s.len());
        assert(byte_len(u) == s.len());
        assert(!looks_like_hex(s));
        assert(!looks_like_hex(u));
    }
}

} // verus!
