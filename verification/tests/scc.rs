use dev_tools_rs::scc::{
    capitalize, convert, format_list, normalize, scc_alfred_items, scc_plan, spongebob_with,
    to_spongebob, SccAction, SccArgs, SccFormat,
};

#[test]
fn normalize_splits_common_patterns() {
    assert_eq!(normalize("helloWorld"), vec!["hello", "world"]);
    assert_eq!(normalize("HelloWorld"), vec!["hello", "world"]);
    assert_eq!(normalize("hello_world"), vec!["hello", "world"]);
    assert_eq!(normalize("hello-world"), vec!["hello", "world"]);
    assert_eq!(normalize("HTTPServer2"), vec!["http", "server", "2"]);
    assert_eq!(normalize("foo2bar"), vec!["foo", "2", "bar"]);
}

#[test]
fn convert_basic_formats() {
    let words = normalize("helloWorld");
    assert_eq!(
        convert(&words, SccFormat::Snake, "helloWorld"),
        "hello_world"
    );
    assert_eq!(
        convert(&words, SccFormat::Kebab, "helloWorld"),
        "hello-world"
    );
    assert_eq!(
        convert(&words, SccFormat::Camel, "helloWorld"),
        "helloWorld"
    );
    assert_eq!(
        convert(&words, SccFormat::Pascal, "helloWorld"),
        "HelloWorld"
    );
    assert_eq!(
        convert(&words, SccFormat::Title, "helloWorld"),
        "Hello World"
    );
}

#[test]
fn spongebob_keeps_non_alphabetic_chars() {
    let original = "a-b_c 1";
    let words = normalize(original);
    let out = convert(&words, SccFormat::SpongeBob, original);
    assert_eq!(out.len(), original.len());
    for (o, c) in original.chars().zip(out.chars()) {
        if !o.is_alphabetic() {
            assert_eq!(o, c);
        }
    }
}

#[test]
fn normalize_edge_cases() {
    assert_eq!(normalize(""), Vec::<String>::new());
    assert_eq!(normalize("---"), Vec::<String>::new());
    assert_eq!(normalize("  a  "), vec!["a"]);
    assert_eq!(normalize("ABC"), vec!["abc"]);
    assert_eq!(normalize("ABCdef"), vec!["ab", "cdef"]);
    assert_eq!(normalize("getHTTPResponse"), vec!["get", "http", "response"]);
    assert_eq!(normalize("v2Api"), vec!["v", "2", "api"]);
    assert_eq!(normalize("héllo wörld"), vec!["h", "llo", "w", "rld"]);
    assert_eq!(normalize("1_2"), vec!["1", "2"]);
}

#[test]
fn convert_every_format() {
    let original = "HTTPServer2 ok";
    let words = normalize(original);
    assert_eq!(convert(&words, SccFormat::Camel, original), "httpServer2Ok");
    assert_eq!(convert(&words, SccFormat::Pascal, original), "HttpServer2Ok");
    assert_eq!(convert(&words, SccFormat::Snake, original), "http_server_2_ok");
    assert_eq!(convert(&words, SccFormat::SnakeUpper, original), "HTTP_SERVER_2_OK");
    assert_eq!(convert(&words, SccFormat::SnakeCap, original), "Http_Server_2_Ok");
    assert_eq!(convert(&words, SccFormat::Kebab, original), "http-server-2-ok");
    assert_eq!(convert(&words, SccFormat::Dot, original), "http.server.2.ok");
    assert_eq!(convert(&words, SccFormat::Title, original), "Http Server 2 Ok");
    assert_eq!(convert(&words, SccFormat::Upper, original), "HTTPSERVER2 OK");
    assert_eq!(convert(&words, SccFormat::Lower, original), "httpserver2 ok");
}

#[test]
fn convert_whole_string_styles_use_unicode_case() {
    let words = normalize("straße");
    assert_eq!(convert(&words, SccFormat::Upper, "straße"), "STRASSE");
    assert_eq!(convert(&words, SccFormat::Lower, "ÀB"), "àb");
}

#[test]
fn readme_examples() {
    let snake = convert(&normalize("HelloWorld"), SccFormat::Snake, "HelloWorld");
    assert_eq!(snake, "hello_world");
    let kebab = convert(&normalize("hello_world"), SccFormat::Kebab, "hello_world");
    assert_eq!(kebab, "hello-world");
    let pascal = convert(&normalize("hello-world"), SccFormat::Pascal, "hello-world");
    assert_eq!(pascal, "HelloWorld");
    let upper = convert(&normalize("helloWorld"), SccFormat::SnakeUpper, "helloWorld");
    assert_eq!(upper, "HELLO_WORLD");
}

#[test]
fn separated_styles_split_back_to_the_same_words() {
    let original = "parseHTTPResponse2Fast";
    let words = normalize(original);
    for fmt in [
        SccFormat::Snake,
        SccFormat::SnakeUpper,
        SccFormat::SnakeCap,
        SccFormat::Kebab,
        SccFormat::Dot,
        SccFormat::Title,
    ] {
        let out = convert(&words, fmt, original);
        assert_eq!(normalize(&out), words);
    }
}

#[test]
fn capitalize_cases() {
    assert_eq!(capitalize(""), "");
    assert_eq!(capitalize("hello"), "Hello");
    assert_eq!(capitalize("Hello"), "Hello");
    assert_eq!(capitalize("2x"), "2x");
    assert_eq!(capitalize("élan"), "Élan");
    assert_eq!(capitalize("ßa"), "SSa");
}

#[test]
fn spongebob_with_given_coins() {
    assert_eq!(spongebob_with("ab-c", &[true, false, true, true]), "Ab-C");
    assert_eq!(spongebob_with("ab-c", &[false, true, false, false]), "aB-c");
    assert_eq!(spongebob_with("ß!", &[true, true]), "SS!");
    assert_eq!(spongebob_with("", &[]), "");
    assert_eq!(spongebob_with("AÉ1", &[false, false, true]), "aé1");
}

#[test]
fn spongebob_keeps_text_without_letters() {
    assert_eq!(to_spongebob("12 -_ 3"), "12 -_ 3");
    let out = to_spongebob("Hello");
    assert_eq!(out.to_lowercase(), "hello");
}

#[test]
fn list_and_plans() {
    assert!(format_list().starts_with("camel\npascal\nsnake\n"));
    assert!(format_list().ends_with("upper\nlower"));
    let args = |format: Option<SccFormat>, list: bool, alfred: bool| SccArgs {
        input: None,
        format,
        alfred,
        list,
    };
    assert!(matches!(scc_plan(&args(None, true, true), "x", true), SccAction::PrintList));
    assert!(matches!(
        scc_plan(&args(Some(SccFormat::Snake), false, false), "", true),
        SccAction::Nothing
    ));
    assert!(matches!(scc_plan(&args(None, false, false), "abc", true), SccAction::FormatRequired));
    match scc_plan(&args(Some(SccFormat::Kebab), false, true), "fooBar", true) {
        SccAction::Print(s) => assert_eq!(s, "foo-bar"),
        _ => panic!("expected a conversion"),
    }
    match scc_plan(&args(None, false, false), "fooBar", false) {
        SccAction::Alfred(items) => assert_eq!(items.len(), 11),
        _ => panic!("expected items"),
    }
}

#[test]
fn alfred_items_for_every_style() {
    let items = scc_alfred_items("fooBar");
    assert_eq!(items.len(), 11);
    assert_eq!(items[0].arg, "fooBar");
    assert_eq!(items[0].subtitle, "camelCase | 小驼峰");
    assert_eq!(items[2].arg, "foo_bar");
    assert_eq!(items[3].arg, "FOO_BAR");
    assert_eq!(items[7].title, "Foo Bar");
    assert_eq!(items[8].arg, "FOOBAR");
    assert_eq!(items[9].arg, "foobar");
    assert_eq!(items[10].subtitle, "mOcKiNg | 嘲讽模式");
    for item in &items {
        assert_eq!(item.uid, "scc");
        assert_eq!(item.title, item.arg);
    }
}

#[test]
fn a_separator_ends_every_word() {
    for (a, sep, b) in [
        ("fooBar", '-', "bazQux2"),
        ("HTTP", '_', "Server"),
        ("", ' ', "x"),
        ("abc1", '.', ""),
        ("ß", 'é', "Ab"),
    ] {
        let joined = format!("{}{}{}", a, sep, b);
        let mut expected = normalize(a);
        expected.extend(normalize(b));
        assert_eq!(normalize(&joined), expected);
    }
}
