use dev_tools_rs::numbers::{hex4, i64_to_chars, parse_hex_u32, parse_i64};
use dev_tools_rs::strings::{contains, join, replace, split_char, split_whitespace, trim};

fn cs(s: &str) -> Vec<char> {
    s.chars().collect()
}

fn st(v: &[char]) -> String {
    v.iter().collect()
}

#[test]
fn trimming_and_splitting() {
    assert_eq!(st(&trim(&cs(" \t a b \n"))), "a b");
    assert_eq!(st(&trim(&cs("\u{3000}x\u{a0}"))), "x");
    assert_eq!(st(&trim(&cs("   "))), "");
    let parts: Vec<String> = split_char(&cs("a..b"), '.').iter().map(|p| st(p)).collect();
    assert_eq!(parts, vec!["a", "", "b"]);
    assert_eq!(split_char(&cs(""), '.').len(), 1);
    let ws: Vec<String> = split_whitespace(&cs("  a \u{3000} bc\td ")).iter().map(|p| st(p)).collect();
    assert_eq!(ws, vec!["a", "bc", "d"]);
    assert!(split_whitespace(&cs(" \n ")).is_empty());
}

#[test]
fn replacing_and_searching() {
    assert_eq!(st(&replace(&cs("aaa"), &cs("aa"), &cs("b"))), "ba");
    assert_eq!(st(&replace(&cs("U+41U+42"), &cs("U+"), &cs(" "))), " 41 42");
    assert!(contains(&cs("a\\u1"), &cs("\\u")));
    assert!(!contains(&cs("abc"), &cs("cd")));
    assert!(contains(&cs("abc"), &cs("")));
    let parts = vec!["a".to_string(), "b".to_string(), "c".to_string()];
    assert_eq!(join(&parts, "--"), "a--b--c");
    assert_eq!(join(&[], ","), "");
}

#[test]
fn numbers_in_and_out() {
    assert_eq!(parse_hex_u32(&cs("4F60")), Some(0x4F60));
    assert_eq!(parse_hex_u32(&cs("ffffffff")), Some(u32::MAX));
    assert_eq!(parse_hex_u32(&cs("100000000")), None);
    assert_eq!(parse_hex_u32(&cs("")), None);
    assert_eq!(parse_hex_u32(&cs("12g")), None);
    assert_eq!(parse_i64(&cs("-9223372036854775808")), Some(i64::MIN));
    assert_eq!(parse_i64(&cs("9223372036854775807")), Some(i64::MAX));
    assert_eq!(parse_i64(&cs("9223372036854775808")), None);
    assert_eq!(parse_i64(&cs("+7")), Some(7));
    assert_eq!(parse_i64(&cs("-")), None);
    assert_eq!(parse_i64(&cs("")), None);
    assert_eq!(parse_i64(&cs("1 2")), None);
    assert_eq!(st(&hex4(0x41)), "0041");
    assert_eq!(st(&hex4(0x1F600)), "1F600");
    assert_eq!(st(&i64_to_chars(i64::MIN)), "-9223372036854775808");
    assert_eq!(st(&i64_to_chars(0)), "0");
}
