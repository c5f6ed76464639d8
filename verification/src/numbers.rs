//! Reading and writing numbers in decimal and hexadecimal.
use vstd::prelude::*;
use crate::strings::{is_digit, is_hex_digit, char_is_digit, char_is_hex_digit};

verus! {

/// The value of a hexadecimal digit.
pub open spec fn hex_val(c: char) -> int {
    if is_digit(c) {
        c as int - '0' as int
    } else if 'a' <= c && c <= 'f' {
        c as int - 'a' as int + 10
    } else {
        c as int - 'A' as int + 10
    }
}

/// The value of a string of hexadecimal digits.
pub open spec fn hex_value(s: Seq<char>) -> int
    decreases s.len(),
{
    if s.len() == 0 {
        0
    } else {
        hex_value(s.drop_last()) * 16 + hex_val(s.last())
    }
}

pub open spec fn all_hex(s: Seq<char>) -> bool {
    forall|i: int| 0 <= i < s.len() ==> is_hex_digit(#[trigger] s[i])
}

/// A non-empty string of hexadecimal digits whose value fits in a `u32`.
pub open spec fn spec_parse_hex_u32(s: Seq<char>) -> Option<u32> {
    if s.len() > 0 && all_hex(s) && hex_value(s) <= u32::MAX {
        Some(hex_value(s) as u32)
    } else {
        None
    }
}

proof fn lemma_hex_value_grows(s: Seq<char>, i: int)
    requires
        all_hex(s),
        0 <= i <= s.len(),
    ensures
        0 <= hex_value(s.take(i)) <= hex_value(s),
    decreases s.len(),
{
    if i < s.len() {
        let d = s.drop_last();
        assert(all_hex(d));
        lemma_hex_value_grows(d, i);
        assert(d.take(i) =~= s.take(i));
        assert(is_hex_digit(s[s.len() - 1]));
        lemma_hex_value_grows(d, d.len() as int);
        assert(d.take(d.len() as int) =~= d);
    } else {
        assert(s.take(i) =~= s);
        if s.len() > 0 {
            let d = s.drop_last();
            assert(all_hex(d));
            lemma_hex_value_grows(d, d.len() as int);
            assert(d.take(d.len() as int) =~= d);
            assert(is_hex_digit(s[s.len() - 1]));
        }
    }
}

fn hex_digit_value(c: char) -> (r: u64)
    requires
        is_hex_digit(c),
    ensures
        r == hex_val(c),
        r < 16,
{
    if char_is_digit(c) {
        (c as u32 - '0' as u32) as u64
    } else if 'a' <= c && c <= 'f' {
        (c as u32 - 'a' as u32 + 10) as u64
    } else {
        (c as u32 - 'A' as u32 + 10) as u64
    }
}

/// Reads a hexadecimal number that must fit in a `u32` ("4F60" gives 0x4F60).
pub fn parse_hex_u32(cs: &[char]) -> (r: Option<u32>)
    ensures
        r == spec_parse_hex_u32(cs@),
{
    if cs.len() == 0 {
        return None;
    }
    let mut acc: u64 = 0;
    let mut i: usize = 0;
    while i < cs.len()
        invariant
            0 <= i <= cs.len(),
            all_hex(cs@.take(i as int)),
            acc == hex_value(cs@.take(i as int)),
            acc <= u32::MAX,
        decreases cs.len() - i,
    {
        let c = cs[i];
        if !char_is_hex_digit(c) {
            assert(!all_hex(cs@));
            return None;
        }
        let d = hex_digit_value(c);
        assert(cs@.take(i + 1).drop_last() =~= cs@.take(i as int));
        assert(all_hex(cs@.take(i + 1)));
        acc = acc * 16 + d;
        i = i + 1;
        if acc > 0xFFFF_FFFF {
            proof {
                if all_hex(cs@) {
                    lemma_hex_value_grows(cs@, i as int);
                }
            }
            return None;
        }
    }
    assert(cs@.take(cs.len() as int) =~= cs@);
    Some(acc as u32)
}

/// The upper-case hexadecimal digit for `d < 16`.
pub open spec fn hex_char(d: int) -> char {
    if d < 10 {
        ('0' as int + d) as char
    } else {
        ('A' as int + d - 10) as char
    }
}

/// The upper-case hexadecimal digits of `v`, without leading zeros.
pub open spec fn hex_digits(v: nat) -> Seq<char>
    decreases v,
{
    if v < 16 {
        seq![hex_char(v as int)]
    } else {
        hex_digits(v / 16).push(hex_char((v % 16) as int))
    }
}

/// `d` padded on the left with zeros to at least four characters.
pub open spec fn pad4(d: Seq<char>) -> Seq<char> {
    if d.len() < 4 {
        Seq::new((4 - d.len()) as nat, |i: int| '0') + d
    } else {
        d
    }
}

fn hex_digit_char(d: u32) -> (r: char)
    requires
        d < 16,
    ensures
        r == hex_char(d as int),
{
    if d < 10 {
        let b: u8 = (48 + d) as u8;
        b as char
    } else {
        let b: u8 = (55 + d) as u8;
        b as char
    }
}

pub fn push_hex_digits(out: &mut Vec<char>, v: u32)
    ensures
        final(out)@ == old(out)@ + hex_digits(v as nat),
    decreases v,
{
    if v < 16 {
        out.push(hex_digit_char(v));
        assert(hex_digits(v as nat) =~= seq![hex_char(v as int)]);
    } else {
        let ghost start = out@;
        push_hex_digits(out, v / 16);
        out.push(hex_digit_char(v % 16));
        assert(start + hex_digits(v as nat) =~= start + hex_digits((v / 16) as nat) + seq![
            hex_char((v % 16) as int),
        ]);
    }
}

/// `v` as at least four upper-case hexadecimal digits, as `{:04X}` writes it.
pub fn hex4(v: u32) -> (r: Vec<char>)
    ensures
        r@ == pad4(hex_digits(v as nat)),
{
    let mut digits: Vec<char> = Vec::new();
    push_hex_digits(&mut digits, v);
    assert(digits@ =~= hex_digits(v as nat));
    let mut r: Vec<char> = Vec::new();
    if digits.len() < 4 {
        let pad = 4 - digits.len();
        let mut k: usize = 0;
        while k < pad
            invariant
                0 <= k <= pad,
                pad == 4 - digits@.len(),
                r@ == Seq::new(k as nat, |i: int| '0'),
            decreases pad - k,
        {
            r.push('0');
            assert(r@ =~= Seq::new((k + 1) as nat, |i: int| '0'));
            k = k + 1;
        }
    }
    let ghost head = r@;
    let mut j: usize = 0;
    while j < digits.len()
        invariant
            0 <= j <= digits.len(),
            r@ == head + digits@.take(j as int),
        decreases digits.len() - j,
    {
        r.push(digits[j]);
        assert(digits@.take(j + 1) =~= digits@.take(j as int).push(digits@[j as int]));
        j = j + 1;
    }
    assert(digits@.take(digits.len() as int) =~= digits@);
    assert(r@ =~= pad4(hex_digits(v as nat)));
    r
}

// ---------------------------------------------------------------------------
// Decimal
// ---------------------------------------------------------------------------

/// The value of a string of decimal digits.
pub open spec fn dec_value(s: Seq<char>) -> int
    decreases s.len(),
{
    if s.len() == 0 {
        0
    } else {
        dec_value(s.drop_last()) * 10 + (s.last() as int - '0' as int)
    }
}

pub open spec fn all_dec(s: Seq<char>) -> bool {
    forall|i: int| 0 <= i < s.len() ==> is_digit(#[trigger] s[i])
}

/// The sign of a number being read, and its digits.
pub open spec fn sign_and_digits(s: Seq<char>) -> (bool, Seq<char>) {
    if s.len() > 0 && s[0] == '-' {
        (true, s.skip(1))
    } else if s.len() > 0 && s[0] == '+' {
        (false, s.skip(1))
    } else {
        (false, s)
    }
}

/// What `str::parse::<i64>` gives: an optional sign, then at least one
/// decimal digit, with a value in the range of `i64`.
pub open spec fn spec_parse_i64(s: Seq<char>) -> Option<i64> {
    let (neg, digits) = sign_and_digits(s);
    let v = if neg {
        -dec_value(digits)
    } else {
        dec_value(digits)
    };
    if digits.len() > 0 && all_dec(digits) && i64::MIN <= v <= i64::MAX {
        Some(v as i64)
    } else {
        None
    }
}

proof fn lemma_dec_value_grows(s: Seq<char>, i: int)
    requires
        all_dec(s),
        0 <= i <= s.len(),
    ensures
        0 <= dec_value(s.take(i)) <= dec_value(s),
    decreases s.len(),
{
    if s.len() > 0 {
        let d = s.drop_last();
        assert(all_dec(d));
        assert(is_digit(s[s.len() - 1]));
        lemma_dec_value_grows(d, d.len() as int);
        assert(d.take(d.len() as int) =~= d);
        if i < s.len() {
            lemma_dec_value_grows(d, i);
            assert(d.take(i) =~= s.take(i));
        } else {
            assert(s.take(i) =~= s);
        }
    } else {
        assert(s.take(i) =~= s);
    }
}

/// Reads a signed decimal number as `str::parse::<i64>` does ("-42", "+7").
pub fn parse_i64(cs: &[char]) -> (r: Option<i64>)
    ensures
        r == spec_parse_i64(cs@),
{
    let n = cs.len();
    let mut start: usize = 0;
    let mut neg = false;
    if n > 0 && cs[0] == '-' {
        start = 1;
        neg = true;
    } else if n > 0 && cs[0] == '+' {
        start = 1;
    }
    let ghost digits = sign_and_digits(cs@).1;
    assert(digits =~= cs@.subrange(start as int, n as int));
    if start >= n {
        return None;
    }
    let limit: u64 = if neg {
        0x8000_0000_0000_0000
    } else {
        0x7FFF_FFFF_FFFF_FFFF
    };
    let mut acc: u64 = 0;
    let mut i: usize = start;
    while i < n
        invariant
            start <= i <= n == cs.len(),
            digits == cs@.subrange(start as int, n as int),
            all_dec(digits.take(i - start)),
            acc == dec_value(digits.take(i - start)),
            acc <= limit,
            limit <= 0x8000_0000_0000_0000,
            limit >= 0x7FFF_FFFF_FFFF_FFFF,
            limit == 0x8000_0000_0000_0000 <==> neg,
            neg == sign_and_digits(cs@).0,
            digits == sign_and_digits(cs@).1,
        decreases n - i,
    {
        let c = cs[i];
        if !char_is_digit(c) {
            assert(digits[i - start] == c);
            assert(!is_digit(digits[i - start]));
            return None;
        }
        let d = (c as u32 - '0' as u32) as u64;
        assert(digits.take(i - start + 1).drop_last() =~= digits.take(i - start));
        assert(digits.take(i - start + 1).last() == c);
        assert(all_dec(digits.take(i - start + 1)));
        if acc > (limit - d) / 10 {
            assert(acc * 10 + d > limit) by (nonlinear_arith)
                requires
                    acc > (limit - d) / 10,
                    d <= 9,
                    limit >= 9,
            ;
            proof {
                if all_dec(digits) {
                    lemma_dec_value_grows(digits, i - start + 1);
                }
            }
            return None;
        }
        acc = acc * 10 + d;
        i = i + 1;
    }
    assert(digits.take(n - start) =~= digits);
    if neg {
        if acc == 0x8000_0000_0000_0000 {
            Some(i64::MIN)
        } else {
            Some(-(acc as i64))
        }
    } else {
        Some(acc as i64)
    }
}

/// The decimal digits of `v`, without leading zeros.
pub open spec fn dec_digits(v: nat) -> Seq<char>
    decreases v,
{
    if v < 10 {
        seq![('0' as int + v) as char]
    } else {
        dec_digits(v / 10).push(('0' as int + v % 10) as char)
    }
}

/// `v` in decimal, with a leading `-` when negative, as `to_string` writes it.
pub open spec fn spec_int_to_string(v: int) -> Seq<char> {
    if v < 0 {
        seq!['-'] + dec_digits((-v) as nat)
    } else {
        dec_digits(v as nat)
    }
}

fn push_dec_digits(out: &mut Vec<char>, v: u64)
    ensures
        final(out)@ == old(out)@ + dec_digits(v as nat),
    decreases v,
{
    if v < 10 {
        let b: u8 = (48 + v) as u8;
        out.push(b as char);
        assert(dec_digits(v as nat) =~= seq![('0' as int + v) as char]);
    } else {
        let ghost start = out@;
        push_dec_digits(out, v / 10);
        let b: u8 = (48 + v % 10) as u8;
        out.push(b as char);
        assert(start + dec_digits(v as nat) =~= start + dec_digits((v / 10) as nat) + seq![
            ('0' as int + v % 10) as char,
        ]);
    }
}

/// `v` in decimal ("-42").
pub fn i64_to_chars(v: i64) -> (r: Vec<char>)
    ensures
        r@ == spec_int_to_string(v as int),
{
    let mut r: Vec<char> = Vec::new();
    if v < 0 {
        r.push('-');
        let m: u64 = if v == i64::MIN {
            0x8000_0000_0000_0000
        } else {
            (-v) as u64
        };
        push_dec_digits(&mut r, m);
        assert(r@ =~= seq!['-'] + dec_digits((-v) as nat));
    } else {
        push_dec_digits(&mut r, v as u64);
        assert(r@ =~= dec_digits(v as nat));
    }
    r
}


// ---------------------------------------------------------------------------
// Writing hexadecimal and reading it back
// ---------------------------------------------------------------------------

/// A digit as `hex_char` writes it.
pub open spec fn is_upper_hex(c: char) -> bool {
    is_digit(c) || ('A' <= c && c <= 'F')
}

pub open spec fn all_upper_hex(s: Seq<char>) -> bool {
    forall|i: int| 0 <= i < s.len() ==> is_upper_hex(#[trigger] s[i])
}

proof fn lemma_hex_char(d: int)
    requires
        0 <= d < 16,
    ensures
        is_upper_hex(hex_char(d)),
        is_hex_digit(hex_char(d)),
        hex_val(hex_char(d)) == d,
{
}

proof fn lemma_hex_value_push(s: Seq<char>, c: char)
    ensures
        hex_value(s.push(c)) == hex_value(s) * 16 + hex_val(c),
{
    assert(s.push(c).drop_last() =~= s);
}

proof fn lemma_hex_digits(v: nat)
    ensures
        hex_digits(v).len() > 0,
        all_upper_hex(hex_digits(v)),
        hex_value(hex_digits(v)) == v,
    decreases v,
{
    if v < 16 {
        lemma_hex_char(v as int);
        assert(hex_value(hex_digits(v)) == hex_value(Seq::<char>::empty().push(hex_char(v as int)))) by {
            assert(seq![hex_char(v as int)] =~= Seq::<char>::empty().push(hex_char(v as int)));
        }
        lemma_hex_value_push(Seq::<char>::empty(), hex_char(v as int));
    } else {
        lemma_hex_digits(v / 16);
        lemma_hex_char((v % 16) as int);
        lemma_hex_value_push(hex_digits(v / 16), hex_char((v % 16) as int));
        let d = hex_digits(v);
        assert forall|i: int| 0 <= i < d.len() implies is_upper_hex(#[trigger] d[i]) by {
            if i < d.len() - 1 {
                assert(d[i] == hex_digits(v / 16)[i]);
            }
        }
    }
}

proof fn lemma_hex_value_zeros(k: nat, d: Seq<char>)
    ensures
        hex_value(Seq::new(k, |i: int| '0') + d) == hex_value(d),
    decreases d.len(), k,
{
    let z = Seq::new(k, |i: int| '0');
    if d.len() == 0 {
        assert(z + d =~= z);
        if k > 0 {
            assert(z.drop_last() =~= Seq::new((k - 1) as nat, |i: int| '0'));
            lemma_hex_value_zeros((k - 1) as nat, d);
            assert(Seq::new((k - 1) as nat, |i: int| '0') + d =~= Seq::new((k - 1) as nat, |i: int| '0'));
        }
    } else {
        lemma_hex_value_zeros(k, d.drop_last());
        assert((z + d).drop_last() =~= z + d.drop_last());
        assert((z + d).last() == d.last());
    }
}

/// Reading back the four-or-more upper-case digits of `v` gives `v`.
pub proof fn lemma_pad4_hex_roundtrip(v: u32)
    ensures
        spec_parse_hex_u32(pad4(hex_digits(v as nat))) == Some(v),
        all_upper_hex(pad4(hex_digits(v as nat))),
        pad4(hex_digits(v as nat)).len() > 0,
{
    let d = hex_digits(v as nat);
    lemma_hex_digits(v as nat);
    let p = pad4(d);
    if d.len() < 4 {
        let k = (4 - d.len()) as nat;
        lemma_hex_value_zeros(k, d);
        assert forall|i: int| 0 <= i < p.len() implies is_upper_hex(#[trigger] p[i]) by {
            if i >= k {
                assert(p[i] == d[i - k]);
            }
        }
    }
    assert forall|i: int| 0 <= i < p.len() implies is_hex_digit(#[trigger] p[i]) by {
        assert(is_upper_hex(p[i]));
    }
}

} // verus!
