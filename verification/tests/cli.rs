use dev_tools_rs::scc::{format_list, scc_plan, SccAction, SccArgs, SccFormat};
use dev_tools_rs::ts::{ts_plan, TsAction};
use dev_tools_rs::ucc::{ucc_plan, UccAction, UccArgs};

fn ucc_args(json: bool, quiet: bool) -> UccArgs {
    UccArgs { input: None, format: None, alfred: false, json, quiet }
}

#[test]
fn scc_snake_conversion() {
    match scc_plan(
        &SccArgs { input: None, format: Some(SccFormat::Snake), alfred: false, list: false },
        "HelloWorld",
        false,
    ) {
        SccAction::Print(out) => assert!(out.contains("hello_world")),
        _ => panic!("expected a conversion"),
    }
}

#[test]
fn scc_list_formats() {
    assert!(matches!(scc_plan(
        &SccArgs { input: None, format: None, alfred: false, list: true },
        "",
        false,
    ), SccAction::PrintList));
    assert!(format_list().contains("camel"));
}

#[test]
fn ucc_quiet_base64_decode() {
    match ucc_plan(&ucc_args(false, true), "aGVsbG8=", false) {
        UccAction::DecodedQuiet(out) => assert_eq!(out, "hello"),
        _ => panic!("expected quiet output"),
    }
}

#[test]
fn ucc_text_lists_encodings() {
    match ucc_plan(&ucc_args(false, false), "hello", false) {
        UccAction::Alfred(items) => {
            assert!(items.iter().any(|i| i.subtitle == "Base64编码"));
        }
        _ => panic!("expected the encodings"),
    }
}

#[test]
fn ucc_json_decode_mode() {
    match ucc_plan(&ucc_args(true, false), "aGVsbG8=", false) {
        UccAction::DecodedJson(result, _) => assert_eq!(result, "hello"),
        _ => panic!("expected json output"),
    }
}

#[test]
fn ts_parses_seconds_timestamp() {
    match ts_plan("1700000000") {
        TsAction::Described(_, _, items) => {
            assert!(items.iter().any(|i| i.subtitle == "Timestamp (Seconds)"));
            assert!(items.iter().any(|i| i.arg == "1700000000"));
        }
        _ => panic!("expected a point in time"),
    }
}
