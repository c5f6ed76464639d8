//! Character classes and string building blocks shared by the converters.
//!
//! Strings are modelled by their character sequences (`Seq<char>`); the
//! executable helpers here work on `&[char]` and `String` and are specified
//! against the spec functions below.
use vstd::prelude::*;

verus! {

// ---------------------------------------------------------------------------
// ASCII character classes
// ---------------------------------------------------------------------------

pub open spec fn is_lower(c: char) -> bool {
    'a' <= c && c <= 'z'
}

pub open spec fn is_upper(c: char) -> bool {
    'A' <= c && c <= 'Z'
}

pub open spec fn is_digit(c: char) -> bool {
    '0' <= c && c <= '9'
}

pub open spec fn is_alpha(c: char) -> bool {
    is_lower(c) || is_upper(c)
}

pub open spec fn is_alnum(c: char) -> bool {
    is_alpha(c) || is_digit(c)
}

pub open spec fn is_hex_digit(c: char) -> bool {
    is_digit(c) || ('a' <= c && c <= 'f') || ('A' <= c && c <= 'F')
}

pub open spec fn is_ascii_char(c: char) -> bool {
    (c as u32) < 128
}

/// ASCII lowercase mapping; every other character is left alone.
pub open spec fn ascii_lower(c: char) -> char {
    if is_upper(c) {
        ((c as u32) + 32) as char
    } else {
        c
    }
}

/// ASCII uppercase mapping; every other character is left alone.
pub open spec fn ascii_upper(c: char) -> char {
    if is_lower(c) {
        ((c as u32) - 32) as char
    } else {
        c
    }
}

pub open spec fn lower_seq(s: Seq<char>) -> Seq<char> {
    s.map_values(|c: char| ascii_lower(c))
}

pub open spec fn upper_seq(s: Seq<char>) -> Seq<char> {
    s.map_values(|c: char| ascii_upper(c))
}

pub fn char_is_lower(c: char) -> (r: bool)
    ensures
        r == is_lower(c),
{
    'a' <= c && c <= 'z'
}

pub fn char_is_upper(c: char) -> (r: bool)
    ensures
        r == is_upper(c),
{
    'A' <= c && c <= 'Z'
}

pub fn char_is_digit(c: char) -> (r: bool)
    ensures
        r == is_digit(c),
{
    '0' <= c && c <= '9'
}

pub fn char_is_alpha(c: char) -> (r: bool)
    ensures
        r == is_alpha(c),
{
    char_is_lower(c) || char_is_upper(c)
}

pub fn char_is_alnum(c: char) -> (r: bool)
    ensures
        r == is_alnum(c),
{
    char_is_alpha(c) || char_is_digit(c)
}

pub fn char_is_hex_digit(c: char) -> (r: bool)
    ensures
        r == is_hex_digit(c),
{
    char_is_digit(c) || ('a' <= c && c <= 'f') || ('A' <= c && c <= 'F')
}

pub fn to_ascii_lower(c: char) -> (r: char)
    ensures
        r == ascii_lower(c),
{
    if char_is_upper(c) {
        let v: u8 = (c as u32 + 32) as u8;
        v as char
    } else {
        c
    }
}

pub fn to_ascii_upper(c: char) -> (r: char)
    ensures
        r == ascii_upper(c),
{
    if char_is_lower(c) {
        let v: u8 = (c as u32 - 32) as u8;
        v as char
    } else {
        c
    }
}

// ---------------------------------------------------------------------------
// Standard-library calls that vstd does not specify
// ---------------------------------------------------------------------------

/// What `char::is_alphabetic` answers for a character (Unicode `Alphabetic`).
pub uninterp spec fn spec_is_alphabetic(c: char) -> bool;

/// What `char::is_whitespace` answers for a character (Unicode `White_Space`).
pub uninterp spec fn spec_is_whitespace(c: char) -> bool;

/// The characters that `char::to_uppercase` yields for a character.
pub uninterp spec fn spec_char_to_upper(c: char) -> Seq<char>;

/// The characters that `char::to_lowercase` yields for a character.
pub uninterp spec fn spec_char_to_lower(c: char) -> Seq<char>;

/// What `str::to_uppercase` returns for a string.
pub uninterp spec fn spec_str_to_upper(s: Seq<char>) -> Seq<char>;

/// What `str::to_lowercase` returns for a string.
pub uninterp spec fn spec_str_to_lower(s: Seq<char>) -> Seq<char>;

/// What `String::from_utf8_lossy` returns for bytes that are not valid UTF-8.
pub uninterp spec fn spec_utf8_lossy(bytes: Seq<u8>) -> Seq<char>;

/// The text of `bytes`, with invalid sequences replaced as
/// `String::from_utf8_lossy` does.
pub open spec fn utf8_lossy(bytes: Seq<u8>) -> Seq<char> {
    if vstd::utf8::valid_utf8(bytes) {
        vstd::utf8::decode_utf8(bytes)
    } else {
        spec_utf8_lossy(bytes)
    }
}

/// Calls `char::is_alphabetic`; the answer is named, not described.
#[verifier::external_body]
pub(crate) fn std_is_alphabetic(c: char) -> (r: bool)
    ensures
        r == spec_is_alphabetic(c),
{
    c.is_alphabetic()
}

/// White space as Unicode's `White_Space` property defines it, which
/// `char::is_whitespace` follows: among ASCII characters, space, tab, line
/// feed, vertical tab, form feed and carriage return; any other character is
/// asked of `char::is_whitespace`.
pub open spec fn is_ws(c: char) -> bool {
    if is_ascii_char(c) {
        c == ' ' || ('\t' <= c && c <= '\r')
    } else {
        spec_is_whitespace(c)
    }
}

pub fn char_is_ws(c: char) -> (r: bool)
    ensures
        r == is_ws(c),
{
    if (c as u32) < 128 {
        c == ' ' || ('\t' <= c && c <= '\r')
    } else {
        std_is_whitespace(c)
    }
}

/// Calls `char::is_whitespace`; the answer is named, not described.
#[verifier::external_body]
pub(crate) fn std_is_whitespace(c: char) -> (r: bool)
    ensures
        r == spec_is_whitespace(c),
{
    c.is_whitespace()
}

/// Calls `char::to_uppercase` and collects what it yields.
#[verifier::external_body]
pub(crate) fn std_char_to_upper(c: char) -> (r: String)
    ensures
        r@ == spec_char_to_upper(c),
{
    c.to_uppercase().to_string()
}

/// Calls `char::to_lowercase` and collects what it yields.
#[verifier::external_body]
pub(crate) fn std_char_to_lower(c: char) -> (r: String)
    ensures
        r@ == spec_char_to_lower(c),
{
    c.to_lowercase().to_string()
}

/// Calls `str::to_uppercase` (Unicode case mapping of the whole string).
#[verifier::external_body]
pub(crate) fn std_str_to_upper(s: &str) -> (r: String)
    ensures
        r@ == spec_str_to_upper(s@),
{
    s.to_uppercase()
}

/// Calls `str::to_lowercase` (Unicode case mapping of the whole string).
#[verifier::external_body]
pub(crate) fn std_str_to_lower(s: &str) -> (r: String)
    ensures
        r@ == spec_str_to_lower(s@),
{
    s.to_lowercase()
}

/// The upper-case form of a string: an ASCII string by the ASCII table
/// (which is what Unicode's case mapping does to ASCII letters), any other
/// string by `str::to_uppercase`.
pub open spec fn str_upper(s: Seq<char>) -> Seq<char> {
    if vstd::utf8::is_ascii_chars(s) {
        upper_seq(s)
    } else {
        spec_str_to_upper(s)
    }
}

/// The lower-case form of a string: an ASCII string by the ASCII table, any
/// other string by `str::to_lowercase`.
pub open spec fn str_lower(s: Seq<char>) -> Seq<char> {
    if vstd::utf8::is_ascii_chars(s) {
        lower_seq(s)
    } else {
        spec_str_to_lower(s)
    }
}

/// `s` in upper case ("straße" gives "STRASSE").
pub fn to_uppercase(s: &str) -> (r: String)
    ensures
        r@ == str_upper(s@),
{
    if s.is_ascii() {
        let cs = chars_of(s);
        let mut r = String::new();
        let mut i: usize = 0;
        while i < cs.len()
            invariant
                0 <= i <= cs.len(),
                r@ == upper_seq(cs@.take(i as int)),
            decreases cs.len() - i,
        {
            let c = to_ascii_upper(cs[i]);
            std_push_char(&mut r, c);
            assert(upper_seq(cs@.take(i + 1)) =~= upper_seq(cs@.take(i as int)).push(c));
            i = i + 1;
        }
        assert(cs@.take(cs.len() as int) =~= cs@);
        r
    } else {
        std_str_to_upper(s)
    }
}

/// `s` in lower case ("ÀB" gives "àb").
pub fn to_lowercase(s: &str) -> (r: String)
    ensures
        r@ == str_lower(s@),
{
    if s.is_ascii() {
        let cs = chars_of(s);
        let mut r = String::new();
        let mut i: usize = 0;
        while i < cs.len()
            invariant
                0 <= i <= cs.len(),
                r@ == lower_seq(cs@.take(i as int)),
            decreases cs.len() - i,
        {
            let c = to_ascii_lower(cs[i]);
            std_push_char(&mut r, c);
            assert(lower_seq(cs@.take(i + 1)) =~= lower_seq(cs@.take(i as int)).push(c));
            i = i + 1;
        }
        assert(cs@.take(cs.len() as int) =~= cs@);
        r
    } else {
        std_str_to_lower(s)
    }
}

/// Calls `String::push`: the character is appended.
#[verifier::external_body]
pub(crate) fn std_push_char(s: &mut String, c: char)
    ensures
        final(s)@ == old(s)@.push(c),
{
    s.push(c);
}

/// Calls `std::str::from_utf8`: it succeeds exactly on valid UTF-8, and then
/// the string holds the decoded characters.
#[verifier::external_body]
pub(crate) fn std_from_utf8(bytes: &[u8]) -> (r: Option<String>)
    ensures
        r is Some <==> vstd::utf8::valid_utf8(bytes@),
        r matches Some(s) ==> s@ == vstd::utf8::decode_utf8(bytes@),
{
    match std::str::from_utf8(bytes) {
        Ok(s) => Some(s.to_string()),
        Err(_) => None,
    }
}

/// Calls `String::from_utf8_lossy`: valid UTF-8 is decoded as it is; the
/// replacement characters that stand for invalid sequences are not described.
#[verifier::external_body]
pub(crate) fn std_from_utf8_lossy(bytes: &[u8]) -> (r: String)
    ensures
        vstd::utf8::valid_utf8(bytes@) ==> r@ == vstd::utf8::decode_utf8(bytes@),
        !vstd::utf8::valid_utf8(bytes@) ==> r@ == spec_utf8_lossy(bytes@),
{
    String::from_utf8_lossy(bytes).to_string()
}

/// Calls `char::from_u32`: it succeeds exactly on Unicode scalar values.
#[verifier::external_body]
pub(crate) fn std_char_from_u32(v: u32) -> (r: Option<char>)
    ensures
        r is Some <==> (v < 0xD800 || (0xE000 <= v && v <= 0x10FFFF)),
        r matches Some(c) ==> c as u32 == v,
{
    char::from_u32(v)
}

// ---------------------------------------------------------------------------
// Building and taking apart strings
// ---------------------------------------------------------------------------

/// The characters of `s`, in order.
pub fn chars_of(s: &str) -> (r: Vec<char>)
    ensures
        r@ == s@,
{
    let mut r: Vec<char> = Vec::new();
    for c in it: s.chars()
        invariant
            r@ == it.seq().take(it.index() as int),
    {
        r.push(c);
    }
    r
}

/// Appends the characters of `cs` to `s`.
pub fn push_chars(s: &mut String, cs: &[char])
    ensures
        final(s)@ == old(s)@ + cs@,
{
    let ghost start = s@;
    let mut i: usize = 0;
    while i < cs.len()
        invariant
            0 <= i <= cs.len(),
            s@ == start + cs@.take(i as int),
        decreases cs.len() - i,
    {
        std_push_char(s, cs[i]);
        assert(cs@.take(i + 1) == cs@.take(i as int).push(cs@[i as int]));
        i = i + 1;
    }
    assert(cs@.take(cs.len() as int) == cs@);
}

/// Appends the string `t` to `s`.
pub fn push_str(s: &mut String, t: &str)
    ensures
        final(s)@ == old(s)@ + t@,
{
    let cs = chars_of(t);
    push_chars(s, cs.as_slice());
}

/// A `String` holding exactly the characters of `cs`.
pub fn string_of(cs: &[char]) -> (r: String)
    ensures
        r@ == cs@,
{
    let mut r = String::new();
    push_chars(&mut r, cs);
    r
}

/// A `String` with the same characters as `s`.
pub fn copy_str(s: &str) -> (r: String)
    ensures
        r@ == s@,
{
    let mut r = String::new();
    push_str(&mut r, s);
    r
}

pub fn seq_eq(a: &[char], b: &[char]) -> (r: bool)
    ensures
        r == (a@ == b@),
{
    if a.len() != b.len() {
        return false;
    }
    let mut i: usize = 0;
    while i < a.len()
        invariant
            a.len() == b.len(),
            0 <= i <= a.len(),
            forall|j: int| 0 <= j < i ==> a@[j] == b@[j],
        decreases a.len() - i,
    {
        if a[i] != b[i] {
            return false;
        }
        i = i + 1;
    }
    assert(a@ =~= b@);
    true
}


pub open spec fn views(ws: Seq<String>) -> Seq<Seq<char>> {
    ws.map_values(|w: String| w@)
}

/// The parts joined with `sep` between each two of them.
pub open spec fn spec_join(parts: Seq<Seq<char>>, sep: Seq<char>) -> Seq<char>
    decreases parts.len(),
{
    if parts.len() == 0 {
        Seq::empty()
    } else if parts.len() == 1 {
        parts[0]
    } else {
        spec_join(parts.drop_last(), sep) + sep + parts.last()
    }
}

/// Joins `parts` with `sep`, as `[String]::join` does.
pub fn join(parts: &[String], sep: &str) -> (r: String)
    ensures
        r@ == spec_join(views(parts@), sep@),
{
    let mut r = String::new();
    let mut i: usize = 0;
    while i < parts.len()
        invariant
            0 <= i <= parts.len(),
            r@ == spec_join(views(parts@.take(i as int)), sep@),
        decreases parts.len() - i,
    {
        let ghost before = r@;
        if i > 0 {
            push_str(&mut r, sep);
        }
        push_str(&mut r, parts[i].as_str());
        assert(views(parts@.take(i + 1)).drop_last() =~= views(parts@.take(i as int)));
        assert(views(parts@.take(i + 1)).last() == parts@[i as int]@);
        if i == 0 {
            assert(r@ =~= parts@[0]@);
        }
        i = i + 1;
    }
    assert(parts@.take(parts.len() as int) =~= parts@);
    r
}

/// Concatenates `parts`.
pub fn concat(parts: &[String]) -> (r: String)
    ensures
        r@ == views(parts@).flatten(),
{
    let mut r = String::new();
    let mut i: usize = 0;
    while i < parts.len()
        invariant
            0 <= i <= parts.len(),
            r@ == views(parts@.take(i as int)).flatten(),
        decreases parts.len() - i,
    {
        push_str(&mut r, parts[i].as_str());
        assert(views(parts@.take(i + 1)) =~= views(parts@.take(i as int)).push(parts@[i as int]@));
        proof { views(parts@.take(i as int)).lemma_flatten_push(parts@[i as int]@); }
        i = i + 1;
    }
    assert(parts@.take(parts.len() as int) =~= parts@);
    r
}


/// Appends `cs[lo..hi]` to `s`.
pub fn push_range(s: &mut String, cs: &[char], lo: usize, hi: usize)
    requires
        lo <= hi <= cs.len(),
    ensures
        final(s)@ == old(s)@ + cs@.subrange(lo as int, hi as int),
{
    let ghost start = s@;
    let mut i: usize = lo;
    while i < hi
        invariant
            lo <= i <= hi <= cs.len(),
            s@ == start + cs@.subrange(lo as int, i as int),
        decreases hi - i,
    {
        std_push_char(s, cs[i]);
        assert(cs@.subrange(lo as int, i + 1) =~= cs@.subrange(lo as int, i as int).push(cs@[i as int]));
        i = i + 1;
    }
}


// ---------------------------------------------------------------------------
// Searching, trimming, splitting and replacing
// ---------------------------------------------------------------------------

pub open spec fn vviews(v: Seq<Vec<char>>) -> Seq<Seq<char>> {
    v.map_values(|x: Vec<char>| x@)
}

/// The characters `cs[lo..hi]`.
pub fn sub_vec(cs: &[char], lo: usize, hi: usize) -> (r: Vec<char>)
    requires
        lo <= hi <= cs.len(),
    ensures
        r@ == cs@.subrange(lo as int, hi as int),
{
    let mut r: Vec<char> = Vec::new();
    let mut i: usize = lo;
    while i < hi
        invariant
            lo <= i <= hi <= cs.len(),
            r@ == cs@.subrange(lo as int, i as int),
        decreases hi - i,
    {
        r.push(cs[i]);
        assert(r@ =~= cs@.subrange(lo as int, i + 1));
        i = i + 1;
    }
    r
}

/// Whether `pat` occurs in `s` at index `i`.
pub open spec fn occurs_at(s: Seq<char>, pat: Seq<char>, i: int) -> bool {
    0 <= i && i + pat.len() <= s.len() && s.subrange(i, i + pat.len()) == pat
}

pub open spec fn spec_contains(s: Seq<char>, pat: Seq<char>) -> bool {
    exists|i: int| occurs_at(s, pat, i)
}

pub open spec fn spec_starts_with(s: Seq<char>, pat: Seq<char>) -> bool {
    occurs_at(s, pat, 0)
}

pub open spec fn spec_ends_with(s: Seq<char>, pat: Seq<char>) -> bool {
    occurs_at(s, pat, s.len() - pat.len())
}

pub fn matches_at(s: &[char], pat: &[char], i: usize) -> (r: bool)
    ensures
        r == occurs_at(s@, pat@, i as int),
{
    if i > s.len() || pat.len() > s.len() - i {
        return false;
    }
    let mut j: usize = 0;
    while j < pat.len()
        invariant
            i + pat.len() <= s.len(),
            0 <= j <= pat.len(),
            forall|k: int| 0 <= k < j ==> s@[i + k] == pat@[k],
        decreases pat.len() - j,
    {
        if s[i + j] != pat[j] {
            assert(s@.subrange(i as int, i + pat.len())[j as int] != pat@[j as int]);
            return false;
        }
        j = j + 1;
    }
    assert(s@.subrange(i as int, i + pat.len()) =~= pat@);
    true
}

pub fn contains(s: &[char], pat: &[char]) -> (r: bool)
    ensures
        r == spec_contains(s@, pat@),
{
    let mut i: usize = 0;
    while i < s.len()
        invariant
            0 <= i <= s.len(),
            forall|k: int| 0 <= k < i ==> !occurs_at(s@, pat@, k),
        decreases s.len() - i,
    {
        if matches_at(s, pat, i) {
            return true;
        }
        i = i + 1;
    }
    if matches_at(s, pat, s.len()) {
        return true;
    }
    assert forall|k: int| !occurs_at(s@, pat@, k) by {
        if 0 <= k && k < i {
        }
    }
    false
}

pub fn contains_char(s: &[char], c: char) -> (r: bool)
    ensures
        r == spec_contains(s@, seq![c]),
{
    let mut i: usize = 0;
    while i < s.len()
        invariant
            0 <= i <= s.len(),
            forall|k: int| 0 <= k < i ==> s@[k] != c,
        decreases s.len() - i,
    {
        if s[i] == c {
            assert(s@.subrange(i as int, i + 1) =~= seq![c]);
            assert(occurs_at(s@, seq![c], i as int));
            return true;
        }
        i = i + 1;
    }
    assert forall|k: int| !occurs_at(s@, seq![c], k) by {
        if 0 <= k && k + 1 <= s@.len() {
            assert(s@.subrange(k, k + 1)[0] == s@[k]);
        }
    }
    false
}

pub open spec fn spec_trim_start(s: Seq<char>) -> Seq<char>
    decreases s.len(),
{
    if s.len() > 0 && is_ws(s[0]) {
        spec_trim_start(s.drop_first())
    } else {
        s
    }
}

pub open spec fn spec_trim_end(s: Seq<char>) -> Seq<char>
    decreases s.len(),
{
    if s.len() > 0 && is_ws(s.last()) {
        spec_trim_end(s.drop_last())
    } else {
        s
    }
}

/// `s` without leading and trailing white space, as `str::trim` gives it.
pub open spec fn spec_trim(s: Seq<char>) -> Seq<char> {
    spec_trim_end(spec_trim_start(s))
}

pub fn trim(cs: &[char]) -> (r: Vec<char>)
    ensures
        r@ == spec_trim(cs@),
{
    let n = cs.len();
    let mut lo: usize = 0;
    assert(cs@.subrange(0, n as int) =~= cs@);
    while lo < n && char_is_ws(cs[lo])
        invariant
            0 <= lo <= n == cs.len(),
            spec_trim_start(cs@) == spec_trim_start(cs@.subrange(lo as int, n as int)),
        decreases n - lo,
    {
        assert(cs@.subrange(lo as int, n as int).drop_first() =~= cs@.subrange(lo + 1, n as int));
        lo = lo + 1;
    }
    assert(spec_trim_start(cs@.subrange(lo as int, n as int)) == cs@.subrange(lo as int, n as int));
    let mut hi: usize = n;
    while hi > lo && char_is_ws(cs[hi - 1])
        invariant
            0 <= lo <= hi <= n == cs.len(),
            spec_trim(cs@) == spec_trim_end(cs@.subrange(lo as int, hi as int)),
        decreases hi - lo,
    {
        assert(cs@.subrange(lo as int, hi as int).drop_last() =~= cs@.subrange(lo as int, hi - 1));
        hi = hi - 1;
    }
    sub_vec(cs, lo, hi)
}

/// `s` without leading and trailing white space.
pub fn trim_str(s: &str) -> (r: String)
    ensures
        r@ == spec_trim(s@),
{
    let cs = chars_of(s);
    let t = trim(cs.as_slice());
    string_of(t.as_slice())
}

/// The pieces of `s` between the occurrences of `sep`, as `str::split` with a
/// character gives them (there is always at least one piece).
pub open spec fn spec_split(s: Seq<char>, sep: char) -> Seq<Seq<char>>
    decreases s.len(),
{
    if s.len() == 0 {
        seq![Seq::empty()]
    } else if s.last() == sep {
        spec_split(s.drop_last(), sep).push(Seq::empty())
    } else {
        let p = spec_split(s.drop_last(), sep);
        p.update(p.len() - 1, p.last().push(s.last()))
    }
}

pub proof fn lemma_split_nonempty(s: Seq<char>, sep: char)
    ensures
        spec_split(s, sep).len() > 0,
    decreases s.len(),
{
    if s.len() > 0 {
        lemma_split_nonempty(s.drop_last(), sep);
    }
}

pub fn split_char(cs: &[char], sep: char) -> (r: Vec<Vec<char>>)
    ensures
        vviews(r@) == spec_split(cs@, sep),
{
    let mut done: Vec<Vec<char>> = Vec::new();
    let mut cur: Vec<char> = Vec::new();
    let mut i: usize = 0;
    while i < cs.len()
        invariant
            0 <= i <= cs.len(),
            vviews(done@).push(cur@) == spec_split(cs@.take(i as int), sep),
        decreases cs.len() - i,
    {
        let ghost before = vviews(done@).push(cur@);
        assert(cs@.take(i + 1).drop_last() =~= cs@.take(i as int));
        proof {
            lemma_split_nonempty(cs@.take(i as int), sep);
        }
        if cs[i] == sep {
            let mut old_cur: Vec<char> = Vec::new();
            std::mem::swap(&mut old_cur, &mut cur);
            done.push(old_cur);
            assert(vviews(done@).push(cur@) =~= before.push(Seq::empty()));
        } else {
            cur.push(cs[i]);
            assert(vviews(done@).push(cur@) =~= before.update(
                before.len() - 1,
                before.last().push(cs@[i as int]),
            ));
        }
        i = i + 1;
    }
    assert(cs@.take(cs.len() as int) =~= cs@);
    done.push(cur);
    done
}

/// `s` with every non-overlapping occurrence of `pat`, from the left,
/// replaced by `rep`, as `str::replace` does.
pub open spec fn spec_replace(s: Seq<char>, pat: Seq<char>, rep: Seq<char>) -> Seq<char>
    decreases s.len(),
{
    if s.len() == 0 {
        s
    } else if pat.len() > 0 && occurs_at(s, pat, 0) {
        rep + spec_replace(s.skip(pat.len() as int), pat, rep)
    } else {
        seq![s[0]] + spec_replace(s.skip(1), pat, rep)
    }
}

pub fn replace(cs: &[char], pat: &[char], rep: &[char]) -> (r: Vec<char>)
    requires
        pat.len() > 0,
    ensures
        r@ == spec_replace(cs@, pat@, rep@),
{
    let mut out: Vec<char> = Vec::new();
    let mut i: usize = 0;
    assert(cs@.skip(0) =~= cs@);
    assert(out@ + spec_replace(cs@, pat@, rep@) =~= spec_replace(cs@, pat@, rep@));
    while i < cs.len()
        invariant
            0 <= i <= cs.len(),
            pat.len() > 0,
            spec_replace(cs@, pat@, rep@) == out@ + spec_replace(cs@.skip(i as int), pat@, rep@),
        decreases cs.len() - i,
    {
        let ghost rest = cs@.skip(i as int);
        if matches_at(cs, pat, i) {
            assert(rest.subrange(0, pat@.len() as int) =~= cs@.subrange(i as int, i + pat.len()));
            assert(rest.skip(pat@.len() as int) =~= cs@.skip(i + pat.len()));
            let mut j: usize = 0;
            let ghost out0 = out@;
            while j < rep.len()
                invariant
                    0 <= j <= rep.len(),
                    out@ == out0 + rep@.take(j as int),
                decreases rep.len() - j,
            {
                out.push(rep[j]);
                assert(rep@.take(j + 1) =~= rep@.take(j as int).push(rep@[j as int]));
                j = j + 1;
            }
            assert(rep@.take(rep.len() as int) =~= rep@);
            assert(out0 + (rep@ + spec_replace(cs@.skip(i + pat.len()), pat@, rep@)) =~= out@
                + spec_replace(cs@.skip(i + pat.len()), pat@, rep@));
            i = i + pat.len();
        } else {
            assert(!occurs_at(rest, pat@, 0)) by {
                if occurs_at(rest, pat@, 0) {
                    assert(rest.subrange(0, pat@.len() as int) =~= cs@.subrange(
                        i as int,
                        i + pat.len(),
                    ));
                }
            }
            assert(rest.skip(1) =~= cs@.skip(i + 1));
            assert(rest[0] == cs@[i as int]);
            let ghost out0 = out@;
            out.push(cs[i]);
            assert(out0 + (seq![cs@[i as int]] + spec_replace(cs@.skip(i + 1), pat@, rep@))
                =~= out@ + spec_replace(cs@.skip(i + 1), pat@, rep@));
            i = i + 1;
        }
    }
    assert(cs@.skip(i as int) =~= Seq::<char>::empty());
    assert(out@ + Seq::<char>::empty() =~= out@);
    out
}

/// The white-space separated pieces of `s`, as `str::split_whitespace` gives
/// them (no piece is empty).
pub open spec fn spec_split_ws(s: Seq<char>) -> Seq<Seq<char>>
    decreases s.len(),
{
    if s.len() == 0 {
        Seq::empty()
    } else if is_ws(s.last()) {
        spec_split_ws(s.drop_last())
    } else {
        let p = spec_split_ws(s.drop_last());
        if s.len() >= 2 && !is_ws(s[s.len() - 2]) {
            p.update(p.len() - 1, p.last().push(s.last()))
        } else {
            p.push(seq![s.last()])
        }
    }
}

proof fn lemma_split_ws_nonempty(s: Seq<char>)
    requires
        s.len() > 0,
        !is_ws(s.last()),
    ensures
        spec_split_ws(s).len() > 0,
    decreases s.len(),
{
    if s.len() >= 2 && !is_ws(s[s.len() - 2]) {
        lemma_split_ws_nonempty(s.drop_last());
    }
}

pub fn split_whitespace(cs: &[char]) -> (r: Vec<Vec<char>>)
    ensures
        vviews(r@) == spec_split_ws(cs@),
{
    let mut parts: Vec<Vec<char>> = Vec::new();
    let mut cur: Vec<char> = Vec::new();
    let mut in_word = false;
    let mut i: usize = 0;
    while i < cs.len()
        invariant
            0 <= i <= cs.len(),
            in_word == (i > 0 && !is_ws(cs@[i - 1])),
            in_word ==> cur@.len() > 0 && vviews(parts@).push(cur@) == spec_split_ws(
                cs@.take(i as int),
            ),
            !in_word ==> vviews(parts@) == spec_split_ws(cs@.take(i as int)),
        decreases cs.len() - i,
    {
        let c = cs[i];
        let ghost pre = cs@.take(i as int);
        let ghost now = cs@.take(i + 1);
        assert(now.drop_last() =~= pre);
        assert(now.last() == c);
        if char_is_ws(c) {
            if in_word {
                let mut w: Vec<char> = Vec::new();
                std::mem::swap(&mut w, &mut cur);
                parts.push(w);
                assert(vviews(parts@) =~= spec_split_ws(now));
            }
            in_word = false;
        } else {
            if in_word {
                assert(now[now.len() - 2] == cs@[i - 1]);
                let ghost before = vviews(parts@).push(cur@);
                cur.push(c);
                assert(vviews(parts@).push(cur@) =~= before.update(
                    before.len() - 1,
                    before.last().push(c),
                ));
            } else {
                if i > 0 {
                    assert(now[now.len() - 2] == cs@[i - 1]);
                }
                cur = Vec::new();
                cur.push(c);
                assert(cur@ =~= seq![c]);
                assert(vviews(parts@).push(cur@) =~= spec_split_ws(now));
            }
            in_word = true;
        }
        i = i + 1;
    }
    assert(cs@.take(cs.len() as int) =~= cs@);
    if in_word {
        parts.push(cur);
    }
    parts
}


proof fn lemma_trim_start_clean(s: Seq<char>)
    ensures
        spec_trim_start(s).len() == 0 || !is_ws(spec_trim_start(s)[0]),
    decreases s.len(),
{
    if s.len() > 0 && is_ws(s[0]) {
        lemma_trim_start_clean(s.drop_first());
    }
}

proof fn lemma_trim_end_prefix(s: Seq<char>)
    ensures
        spec_trim_end(s).len() <= s.len(),
        spec_trim_end(s) == s.take(spec_trim_end(s).len() as int),
        spec_trim_end(s).len() == 0 || !is_ws(spec_trim_end(s).last()),
    decreases s.len(),
{
    if s.len() > 0 && is_ws(s.last()) {
        lemma_trim_end_prefix(s.drop_last());
        let k = spec_trim_end(s).len() as int;
        assert(s.drop_last().take(k) =~= s.take(k));
    } else {
        assert(s.take(s.len() as int) =~= s);
    }
}

/// Trimming twice is trimming once.
pub proof fn lemma_trim_idempotent(s: Seq<char>)
    ensures
        spec_trim(spec_trim(s)) == spec_trim(s),
{
    let a = spec_trim_start(s);
    let b = spec_trim_end(a);
    lemma_trim_start_clean(s);
    lemma_trim_end_prefix(a);
    if b.len() > 0 {
        assert(b[0] == a[0]);
    }
    assert(spec_trim_start(b) == b);
}


proof fn lemma_trim_start_suffix(s: Seq<char>) -> (k: int)
    ensures
        0 <= k <= s.len(),
        spec_trim_start(s) == s.skip(k),
    decreases s.len(),
{
    if s.len() > 0 && is_ws(s[0]) {
        let j = lemma_trim_start_suffix(s.drop_first());
        assert(s.drop_first().skip(j) =~= s.skip(j + 1));
        j + 1
    } else {
        assert(s.skip(0) =~= s);
        0
    }
}

/// Trimming keeps a contiguous part of the text.
pub proof fn lemma_trim_subrange(s: Seq<char>) -> (r: (int, int))
    ensures
        0 <= r.0 <= r.1 <= s.len(),
        spec_trim(s) == s.subrange(r.0, r.1),
{
    let lo = lemma_trim_start_suffix(s);
    let a = spec_trim_start(s);
    lemma_trim_end_prefix(a);
    let n = spec_trim_end(a).len() as int;
    assert(a.take(n) =~= s.subrange(lo, lo + n));
    (lo, lo + n)
}

/// There are two or more pieces exactly when the separator occurs.
pub proof fn lemma_split_len_contains(s: Seq<char>, sep: char)
    ensures
        spec_split(s, sep).len() >= 2 <==> exists|i: int| 0 <= i < s.len() && s[i] == sep,
    decreases s.len(),
{
    if s.len() > 0 {
        lemma_split_len_contains(s.drop_last(), sep);
        lemma_split_nonempty(s.drop_last(), sep);
        if s.last() == sep {
            assert(s[s.len() - 1] == sep);
        } else {
            if exists|i: int| 0 <= i < s.len() && s[i] == sep {
                let i = choose|i: int| 0 <= i < s.len() && s[i] == sep;
                assert(i < s.len() - 1);
                assert(s.drop_last()[i] == sep);
            }
            if exists|i: int| 0 <= i < s.drop_last().len() && s.drop_last()[i] == sep {
                let i = choose|i: int| 0 <= i < s.drop_last().len() && s.drop_last()[i] == sep;
                assert(s[i] == sep);
            }
        }
    }
}


// ---------------------------------------------------------------------------
// Facts about replacing and splitting
// ---------------------------------------------------------------------------

/// Replacing a pattern whose first character does not occur changes nothing.
pub proof fn lemma_replace_absent(s: Seq<char>, pat: Seq<char>, rep: Seq<char>)
    requires
        pat.len() > 0,
        forall|i: int| 0 <= i < s.len() ==> s[i] != pat[0],
    ensures
        spec_replace(s, pat, rep) == s,
    decreases s.len(),
{
    if s.len() > 0 {
        assert(!occurs_at(s, pat, 0)) by {
            if occurs_at(s, pat, 0) {
                assert(s.subrange(0, pat.len() as int)[0] == s[0]);
            }
        }
        let t = s.skip(1);
        assert forall|i: int| 0 <= i < t.len() implies t[i] != pat[0] by {
            assert(t[i] == s[i + 1]);
        }
        lemma_replace_absent(t, pat, rep);
        assert(seq![s[0]] + t =~= s);
    }
}

/// Replacing a pattern of one or two characters in `a + b` is replacing in
/// `a` and in `b`, when no occurrence can start at the end of `a`.
pub proof fn lemma_replace_concat(a: Seq<char>, b: Seq<char>, pat: Seq<char>, rep: Seq<char>)
    requires
        1 <= pat.len() <= 2,
        pat.len() == 1 || a.len() == 0 || a.last() != pat[0],
    ensures
        spec_replace(a + b, pat, rep) == spec_replace(a, pat, rep) + spec_replace(b, pat, rep),
    decreases a.len(),
{
    if a.len() == 0 {
        assert(a + b =~= b);
        assert(spec_replace(a, pat, rep) =~= Seq::<char>::empty());
        assert(Seq::<char>::empty() + spec_replace(b, pat, rep) =~= spec_replace(b, pat, rep));
    } else {
        let ab = a + b;
        let n = pat.len() as int;
        if a.len() >= n {
            assert(ab.subrange(0, n) =~= a.subrange(0, n));
        } else {
            assert(!occurs_at(ab, pat, 0)) by {
                if occurs_at(ab, pat, 0) {
                    assert(a.len() == 1 && n == 2);
                    assert(ab.subrange(0, n)[0] == a[0]);
                }
            }
        }
        if occurs_at(ab, pat, 0) {
            assert(occurs_at(a, pat, 0));
            let a2 = a.skip(n);
            assert(ab.skip(n) =~= a2 + b);
            if a2.len() > 0 {
                assert(a2.last() == a.last());
            }
            lemma_replace_concat(a2, b, pat, rep);
            assert(rep + (spec_replace(a2, pat, rep) + spec_replace(b, pat, rep)) =~= (rep
                + spec_replace(a2, pat, rep)) + spec_replace(b, pat, rep));
        } else {
            assert(!occurs_at(a, pat, 0)) by {
                if occurs_at(a, pat, 0) {
                    assert(ab.subrange(0, n) =~= a.subrange(0, n));
                }
            }
            let a2 = a.skip(1);
            assert(ab.skip(1) =~= a2 + b);
            assert(ab[0] == a[0]);
            if a2.len() > 0 {
                assert(a2.last() == a.last());
            }
            lemma_replace_concat(a2, b, pat, rep);
            assert(seq![a[0]] + (spec_replace(a2, pat, rep) + spec_replace(b, pat, rep)) =~= (seq![
                a[0],
            ] + spec_replace(a2, pat, rep)) + spec_replace(b, pat, rep));
        }
    }
}

/// White space at the end adds no piece.
pub proof fn lemma_split_ws_trailing(x: Seq<char>, w: char)
    requires
        is_ws(w),
    ensures
        spec_split_ws(x.push(w)) == spec_split_ws(x),
{
    assert(x.push(w).drop_last() =~= x);
}

/// A run of non-white-space characters after white space (or at the start)
/// is one more piece.
pub proof fn lemma_split_ws_word(y: Seq<char>, h: Seq<char>)
    requires
        y.len() == 0 || is_ws(y.last()),
        h.len() > 0,
        forall|i: int| 0 <= i < h.len() ==> !is_ws(#[trigger] h[i]),
    ensures
        spec_split_ws(y + h) == spec_split_ws(y).push(h),
    decreases h.len(),
{
    let s = y + h;
    if h.len() == 1 {
        assert(s.drop_last() =~= y);
        assert(s.last() == h[0]);
        if s.len() >= 2 {
            assert(s[s.len() - 2] == y.last());
        }
        assert(seq![s.last()] =~= h);
    } else {
        let h2 = h.drop_last();
        assert forall|i: int| 0 <= i < h2.len() implies !is_ws(#[trigger] h2[i]) by {
            assert(h2[i] == h[i]);
        }
        lemma_split_ws_word(y, h2);
        assert(s.drop_last() =~= y + h2);
        assert(s.last() == h[h.len() - 1]);
        assert(s[s.len() - 2] == h[h.len() - 2]);
        assert(h2.push(s.last()) =~= h);
        let p = spec_split_ws(y + h2);
        assert(p.update(p.len() - 1, p.last().push(s.last())) =~= spec_split_ws(y).push(h));
    }
}


/// Text without white space at either end is its own trim.
pub proof fn lemma_trim_clean(s: Seq<char>)
    requires
        s.len() == 0 || (!is_ws(s[0]) && !is_ws(s.last())),
    ensures
        spec_trim(s) == s,
{
}

} // verus!
