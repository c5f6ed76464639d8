use dev_tools_rs::ts::{
    describe_time, invalid_date_items, local_time_text, parse_datetime, relative_time, relative_time_from_seconds,
    time_items, ts_plan, TsAction, UtcTime, MAX_UTC_SECS, MIN_UTC_SECS,
};

#[test]
fn parse_now_and_timestamps() {
    assert!(parse_datetime("now").is_some());

    let secs = parse_datetime("1700000000").expect("secs");
    assert_eq!(secs.timestamp(), 1_700_000_000);

    let ms = parse_datetime("1700000000000").expect("ms");
    assert_eq!(ms.timestamp_millis(), 1_700_000_000_000);
}

#[test]
fn parse_rfc3339() {
    let dt = parse_datetime("2023-01-01T00:00:00Z").expect("rfc3339");
    assert_eq!(dt.timestamp(), 1_672_531_200);
}

#[test]
fn parse_time_only() {
    assert!(parse_datetime("12:34:56").is_some());
}

#[test]
fn relative_time_signs() {
    let now = UtcTime::now();
    let past = UtcTime::from_timestamp(now.timestamp() - 10, now.timestamp_subsec_nanos()).unwrap();
    let future =
        UtcTime::from_timestamp(now.timestamp() + 10, now.timestamp_subsec_nanos()).unwrap();

    let past_s = relative_time(&past);
    let future_s = relative_time(&future);

    assert!(past_s.contains("ago"));
    assert!(future_s.contains("in"));
}

#[test]
fn parse_edge_cases() {
    assert!(parse_datetime("").is_some());
    assert!(parse_datetime("  NoW ").is_some());
    let neg = parse_datetime("-86400").unwrap();
    assert_eq!(neg.timestamp(), -86_400);
    assert_eq!(neg.timestamp_subsec_nanos(), 0);
    let border = parse_datetime("3000000000").unwrap();
    assert_eq!(border.timestamp(), 3_000_000_000);
    let ten_digits = parse_datetime("3000000001").unwrap();
    assert_eq!(ten_digits.timestamp(), 3_000_000_001);
    let millis = parse_datetime("10000000001").unwrap();
    assert_eq!(millis.timestamp(), 10_000_000);
    assert_eq!(millis.timestamp_subsec_nanos(), 1_000_000);
    assert!(parse_datetime("9223372036854775807").is_none());
    let frac = parse_datetime("2023-01-01T08:00:00.5+08:00").unwrap();
    assert_eq!(frac.timestamp(), 1_672_531_200);
    assert_eq!(frac.timestamp_subsec_nanos(), 500_000_000);
    assert_eq!(frac.timestamp_millis(), 1_672_531_200_500);
    assert!(parse_datetime("2023-01-01 12:00:00").is_some());
    assert!(parse_datetime("2023-01-01 12:00").is_some());
    assert!(parse_datetime("2023-01-01").is_some());
    assert!(parse_datetime("not a date").is_none());
    assert!(parse_datetime("12:34").is_none());
}

#[test]
fn relative_time_texts() {
    assert_eq!(relative_time_from_seconds(0), "just now");
    assert_eq!(relative_time_from_seconds(10), "10s ago");
    assert_eq!(relative_time_from_seconds(-10), "in 10s");
    assert_eq!(relative_time_from_seconds(59), "59s ago");
    assert_eq!(relative_time_from_seconds(60), "1m ago");
    assert_eq!(relative_time_from_seconds(3599), "59m ago");
    assert_eq!(relative_time_from_seconds(-3600), "in 1h");
    assert_eq!(relative_time_from_seconds(86399), "23h ago");
    assert_eq!(relative_time_from_seconds(86400 * 3 + 5), "3d ago");
    assert_eq!(relative_time_from_seconds(i64::MAX), "106751991167300d ago");
}

#[test]
fn describing_a_point() {
    let t = parse_datetime("1700000000").unwrap();
    let items = time_items(&t, "LOCAL", "REL");
    assert_eq!(items.len(), 5);
    assert_eq!(items[0].arg, "LOCAL");
    assert_eq!(items[1].uid, "sec");
    assert_eq!(items[1].subtitle, "Timestamp (Seconds)");
    assert_eq!(items[1].arg, "1700000000");
    assert_eq!(items[2].arg, "1700000000000");
    assert_eq!(items[3].arg, "2023-11-14T22:13:20+00:00");
    assert_eq!(items[4].arg, "REL");
    let described = describe_time(&t);
    assert_eq!(described.len(), 5);
    assert!(described[4].arg.ends_with("ago"));
    let errors = invalid_date_items("xyz");
    assert_eq!(errors.len(), 1);
    assert_eq!(errors[0].title, "Error");
    assert_eq!(errors[0].arg, "Invalid date format: xyz");
}

#[test]
fn ts_plan_outcomes() {
    match ts_plan("") {
        TsAction::Described(input, _, items) => {
            assert_eq!(input, "now");
            assert_eq!(items.len(), 5);
        }
        _ => panic!("now must be readable"),
    }
    match ts_plan("bogus") {
        TsAction::Invalid(input, msg, items) => {
            assert_eq!(input, "bogus");
            assert_eq!(msg, "Invalid date format: bogus");
            assert_eq!(items[0].uid, "error");
        }
        _ => panic!("bogus is no date"),
    }
}

#[test]
fn local_time_is_the_point_moved_by_less_than_a_day() {
    let t = UtcTime::from_timestamp(1_700_000_000, 0).unwrap();
    let text = local_time_text(&t);
    let naive = chrono::DateTime::from_timestamp(1_700_000_000, 0).unwrap().naive_utc();
    let found = (-86_399i64..86_400).any(|off| {
        (naive + chrono::Duration::seconds(off)).format("%Y-%m-%d %H:%M:%S").to_string() == text
    });
    assert!(found);
    assert_eq!(text.len(), 19);
}

#[test]
fn ten_digit_timestamps_are_seconds() {
    assert_eq!(parse_datetime("4000000000").unwrap().timestamp(), 4_000_000_000);
    assert_eq!(parse_datetime("9999999999").unwrap().timestamp(), 9_999_999_999);
    let ms = parse_datetime("10000000000").unwrap();
    assert_eq!(ms.timestamp(), 10_000_000);
    assert_eq!(ms.timestamp_millis(), 10_000_000_000);
}

#[test]
fn chrono_range_and_leap_seconds() {
    assert!(UtcTime::from_timestamp(MIN_UTC_SECS, 0).is_some());
    assert!(UtcTime::from_timestamp(MIN_UTC_SECS - 1, 0).is_none());
    assert!(UtcTime::from_timestamp(MAX_UTC_SECS, 999_999_999).is_some());
    assert!(UtcTime::from_timestamp(MAX_UTC_SECS + 1, 0).is_none());
    assert!(UtcTime::from_timestamp(59, 1_500_000_000).is_some());
    assert!(UtcTime::from_timestamp(58, 1_500_000_000).is_none());
    assert!(UtcTime::from_timestamp(59, 2_000_000_000).is_none());
}

#[test]
fn local_date_time_is_within_a_day() {
    let naive = 1_672_574_400i64; // 2023-01-01 12:00:00
    if let Some(t) = parse_datetime("2023-01-01 12:00:00") {
        assert!((t.timestamp() - naive).abs() < 86_400);
        assert_eq!(t.timestamp_subsec_nanos(), 0);
    }
    if let Some(t) = parse_datetime("2023-01-01") {
        assert!((t.timestamp() - 1_672_531_200).abs() < 86_400);
    }
    if let Some(t) = parse_datetime("2023-01-01 12:00:60") {
        assert_eq!(t.timestamp_subsec_nanos(), 1_000_000_000);
        let items = describe_time(&t);
        assert_eq!(items.len(), 5);
    }
}
