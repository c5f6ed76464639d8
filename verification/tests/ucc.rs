use base64::engine::general_purpose;
use base64::Engine as _;
use dev_tools_rs::codecs::Base64Error;
use dev_tools_rs::ucc::{
    convert, decode_base64_forgiving, detect_type, generate_all_encodings, ucc_plan, InputType,
    UccAction, UccArgs,
};

#[test]
fn detect_and_convert_hex() {
    let input = "48656C6C6F";
    assert_eq!(detect_type(input), InputType::Hex);
    let (out, _) = convert(input, &InputType::Hex);
    assert_eq!(out, "Hello");
}

#[test]
fn detect_and_convert_base64() {
    let input = "aGVsbG8=";
    assert_eq!(detect_type(input), InputType::Base64);
    let (out, _) = convert(input, &InputType::Base64);
    assert_eq!(out, "hello");
}

#[test]
fn detect_and_convert_url() {
    let input = "%E4%BD%A0%E5%A5%BD";
    assert_eq!(detect_type(input), InputType::Url);
    let (out, _) = convert(input, &InputType::Url);
    assert_eq!(out, "你好");
}

#[test]
fn detect_and_convert_html_entity() {
    let input = "&lt;div&gt;";
    assert_eq!(detect_type(input), InputType::HtmlEntity);
    let (out, _) = convert(input, &InputType::HtmlEntity);
    assert_eq!(out, "<div>");
}

#[test]
fn detect_and_convert_unicode_points_multiple() {
    let input = "U+4F60 U+597D";
    assert_eq!(detect_type(input), InputType::UnicodePoints);
    let (out, _) = convert(input, &InputType::UnicodePoints);
    assert_eq!(out, "你好");
}

#[test]
fn detect_and_convert_unicode_escaped() {
    let input = "\\u4f60\\u597d";
    assert_eq!(detect_type(input), InputType::UnicodeEscaped);
    let (out, _) = convert(input, &InputType::UnicodeEscaped);
    assert_eq!(out, "你好");
}

#[test]
fn detect_and_convert_jwt_payload() {
    let header = general_purpose::URL_SAFE_NO_PAD.encode(r#"{"alg":"none"}"#);
    let payload = general_purpose::URL_SAFE_NO_PAD.encode(r#"{"sub":"123"}"#);
    let token = format!("{}.{}.{}", header, payload, "sig");

    assert_eq!(detect_type(&token), InputType::Jwt);
    let (out, info) = convert(&token, &InputType::Jwt);
    assert!(info.contains("JWT"));
    assert!(out.contains("\"sub\""));
    assert!(out.contains("123"));
}

#[test]
fn jwt_payload_is_pretty_printed() {
    let payload = general_purpose::URL_SAFE_NO_PAD.encode(r#"{"sub":"123"}"#);
    let token = format!("e30.{}.sig", payload);
    let (out, info) = convert(&token, &InputType::Jwt);
    assert_eq!(out, "{\n  \"sub\": \"123\"\n}");
    assert_eq!(info, "JWT Payload");
}

#[test]
fn detect_plain_text_and_short_words() {
    assert_eq!(detect_type("hello"), InputType::Text);
    assert_eq!(detect_type("abcd"), InputType::Text);
    assert_eq!(detect_type("  "), InputType::Text);
    assert_eq!(detect_type("100%"), InputType::Text);
    assert_eq!(detect_type("ff"), InputType::Text);
    assert_eq!(detect_type("fffe"), InputType::Text);
}

#[test]
fn detect_trims_and_orders_the_tests() {
    assert_eq!(detect_type("  48656C6C6F \n"), InputType::Hex);
    assert_eq!(detect_type("&amp;"), InputType::HtmlEntity);
    assert_eq!(detect_type("u+41"), InputType::UnicodePoints);
    assert_eq!(detect_type("U+"), InputType::UnicodePoints);
    assert_eq!(detect_type("say \\u0041"), InputType::UnicodeEscaped);
    assert_eq!(detect_type("a%20b"), InputType::Url);
    assert_eq!(detect_type("aGVsbG8gd29ybGQh"), InputType::Base64);
}

#[test]
fn convert_each_kind_and_its_label() {
    assert_eq!(
        convert("U+41 u+42 x43 U+110000 U+D800", &InputType::UnicodePoints),
        ("AB".to_string(), "Unicode码点 → 字符".to_string())
    );
    assert_eq!(
        convert("41 zz", &InputType::Hex),
        ("Error".to_string(), "Error".to_string())
    );
    assert_eq!(
        convert(" 4142 ", &InputType::Hex),
        ("AB".to_string(), "UTF-8十六进制 → 字符串".to_string())
    );
    assert_eq!(
        convert("ff", &InputType::Hex),
        ("\u{FFFD}".to_string(), "UTF-8十六进制 → 字符串".to_string())
    );
    assert_eq!(
        convert("%zz", &InputType::Url),
        ("%zz".to_string(), "URL编码 → 字符串".to_string())
    );
    assert_eq!(
        convert("%ff", &InputType::Url),
        ("%ff".to_string(), "URL编码 → 字符串".to_string())
    );
    assert_eq!(
        convert("!!!", &InputType::Base64),
        ("Error".to_string(), "Error".to_string())
    );
    assert_eq!(
        convert("abc\\", &InputType::UnicodeEscaped),
        ("abc\\".to_string(), "Unicode转义序列 → 字符串".to_string())
    );
    assert_eq!(
        convert("plain", &InputType::Text),
        ("plain".to_string(), "文本".to_string())
    );
    assert_eq!(
        convert("a.!!!.c", &InputType::Jwt),
        ("Invalid JWT Payload".to_string(), "Error".to_string())
    );
    let not_json = general_purpose::URL_SAFE_NO_PAD.encode("plain words");
    let (out, info) = convert(&format!("h.{}.s", not_json), &InputType::Jwt);
    assert_eq!(out, "plain words");
    assert_eq!(info, "JWT Payload");
}

#[test]
fn forgiving_base64_pads_and_accepts_both_alphabets() {
    assert_eq!(decode_base64_forgiving("aGVsbG8").unwrap(), b"hello".to_vec());
    assert_eq!(decode_base64_forgiving(" aGVsbG8= ").unwrap(), b"hello".to_vec());
    assert_eq!(decode_base64_forgiving("-_8").unwrap(), vec![0xfb, 0xff]);
    assert_eq!(decode_base64_forgiving("+/8").unwrap(), vec![0xfb, 0xff]);
    assert!(matches!(
        decode_base64_forgiving("a!cd"),
        Err(Base64Error::InvalidByte(1, b'!'))
    ));
    assert!(decode_base64_forgiving("a").is_err());
}

#[test]
fn encodings_of_plain_text() {
    let items = generate_all_encodings("hi <你>");
    assert_eq!(items.len(), 5);
    assert_eq!(items[0].uid, "unicode");
    assert_eq!(items[0].arg, "U+0068 U+0069 U+0020 U+003C U+4F60 U+003E");
    assert_eq!(items[1].uid, "hex");
    assert_eq!(items[1].arg, "6869203CE4BDA03E");
    assert_eq!(items[2].uid, "url");
    assert_eq!(items[2].arg, "hi%20%3C%E4%BD%A0%3E");
    assert_eq!(items[3].uid, "base64");
    assert_eq!(items[3].arg, "aGkgPOS9oD4=");
    assert_eq!(items[4].uid, "html");
    assert_eq!(items[4].arg, "hi &lt;你&gt;");
    assert_eq!(items[3].subtitle, "Base64编码");
    assert_eq!(generate_all_encodings("😀")[0].arg, "U+1F600");
}

#[test]
fn code_points_read_back() {
    let text = "Zoë 你好 😀";
    let items = generate_all_encodings(text);
    let (out, _) = convert(&items[0].arg, &InputType::UnicodePoints);
    assert_eq!(out, text);
}

#[test]
fn plans_for_each_mode() {
    let args = |format: Option<&str>| UccArgs {
        input: None,
        format: format.map(|f| f.to_string()),
        alfred: false,
        json: false,
        quiet: false,
    };
    assert!(matches!(ucc_plan(&args(None), "", false), UccAction::Nothing));
    match ucc_plan(&args(None), "hello", false) {
        UccAction::Alfred(items) => assert_eq!(items.len(), 5),
        _ => panic!("expected items"),
    }
    match ucc_plan(&args(None), "aGVsbG8=", false) {
        UccAction::Alfred(items) => {
            assert_eq!(items.len(), 1);
            assert_eq!(items[0].uid, "result");
            assert_eq!(items[0].arg, "hello");
        }
        _ => panic!("expected items"),
    }
    match ucc_plan(&args(None), "hello", true) {
        UccAction::EncodingsText(items) => assert_eq!(items.len(), 5),
        _ => panic!("expected the encodings"),
    }
    match ucc_plan(&args(Some("x")), "hello", true) {
        UccAction::DecodedReport(t, res, info) => {
            assert_eq!(t, InputType::Text);
            assert_eq!(res, "hello");
            assert_eq!(info, "文本");
        }
        _ => panic!("expected a report"),
    }
}

#[test]
fn encoded_items_read_back() {
    let text = "Zoë 你好 😀 a+b=c&d";
    let items = generate_all_encodings(text);
    let (from_hex, _) = convert(&items[1].arg, &InputType::Hex);
    assert_eq!(from_hex, text);
    let (from_url, _) = convert(&items[2].arg, &InputType::Url);
    assert_eq!(from_url, text);
    let (from_b64, _) = convert(&items[3].arg, &InputType::Base64);
    assert_eq!(from_b64, text);
}

#[test]
fn base64_needs_the_canonical_encoding() {
    assert_eq!(decode_base64_forgiving("QQ==").unwrap(), b"A".to_vec());
    assert!(matches!(
        decode_base64_forgiving("QR=="),
        Err(Base64Error::InvalidLastSymbol(1, b'R'))
    ));
    assert_eq!(decode_base64_forgiving("-_8=").unwrap(), vec![0xfb, 0xff]);
    assert_eq!(decode_base64_forgiving("+/8=").unwrap(), vec![0xfb, 0xff]);
}

#[test]
fn forgiving_base64_reads_every_common_encoding() {
    let samples: Vec<Vec<u8>> = vec![
        vec![],
        vec![0xfb],
        vec![0xfb, 0xff],
        vec![0xfb, 0xff, 0xbf],
        b"{\"sub\":\"123\"}".to_vec(),
        (0u8..=255).collect(),
    ];
    for b in samples {
        for text in [
            general_purpose::URL_SAFE.encode(&b),
            general_purpose::URL_SAFE_NO_PAD.encode(&b),
            general_purpose::STANDARD.encode(&b),
            general_purpose::STANDARD_NO_PAD.encode(&b),
        ] {
            assert_eq!(decode_base64_forgiving(&text).unwrap(), b);
        }
    }
}
