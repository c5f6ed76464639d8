//! The timestamp tool: reading a point in time from a timestamp or a date,
//! and describing it in several ways.
//!
//! A point in time is held as whole seconds since the Unix epoch and the
//! nanoseconds within that second, as `chrono` reports them; the calendar
//! work (parsing dates, time zones, formatting) is done by `chrono`.
use vstd::prelude::*;
use chrono::TimeZone;
use crate::strings::{
    spec_trim, lower_seq, chars_of, trim, string_of, copy_str, push_str, to_ascii_lower,
};
use crate::numbers::{spec_parse_i64, parse_i64, spec_int_to_string, i64_to_chars, dec_digits};
use crate::alfred::{AlfredItem, item_is};

verus! {

/// The first second that `chrono` holds: 00:00:00 on January 1 of the year
/// -262143.
pub const MIN_UTC_SECS: i64 = -8_334_601_228_800;

/// The last second that `chrono` holds: 23:59:59 on December 31 of the year
/// 262142.
pub const MAX_UTC_SECS: i64 = 8_210_266_876_799;

/// Whether `chrono::DateTime::from_timestamp(secs, nanos)` yields a value: the
/// second lies in `chrono`'s range, the nanoseconds are below two seconds'
/// worth, and a second's worth or more (a leap second) only in the last
/// second of a minute.
pub open spec fn spec_utc_valid(secs: i64, nanos: u32) -> bool {
    &&& MIN_UTC_SECS <= secs <= MAX_UTC_SECS
    &&& nanos < 2_000_000_000
    &&& nanos >= 1_000_000_000 ==> secs % 60 == 59
}

/// A point in time: seconds since 1970-01-01T00:00:00Z and the nanoseconds
/// within that second (up to two seconds' worth during a leap second).
pub struct UtcTime {
    secs: i64,
    nanos: u32,
}

/// A pair that names a `chrono::DateTime<Utc>`: a second in `chrono`'s range
/// and fewer than two seconds' worth of nanoseconds. A leap second that a
/// time zone with an offset in whole seconds moves keeps its nanoseconds on a
/// second that does not end a minute, so not every such pair is one that
/// `from_timestamp` accepts.
pub open spec fn in_chrono_range(secs: i64, nanos: u32) -> bool {
    &&& MIN_UTC_SECS <= secs <= MAX_UTC_SECS
    &&& nanos < 2_000_000_000
}

impl UtcTime {
    #[verifier::type_invariant]
    closed spec fn wf(self) -> bool {
        in_chrono_range(self.secs, self.nanos)
    }

    pub closed spec fn spec_secs(self) -> i64 {
        self.secs
    }

    pub closed spec fn spec_nanos(self) -> u32 {
        self.nanos
    }

    /// Whole seconds since the epoch.
    pub fn timestamp(&self) -> (r: i64)
        ensures
            r == self.spec_secs(),
    {
        self.secs
    }

    /// Nanoseconds within the second.
    pub fn timestamp_subsec_nanos(&self) -> (r: u32)
        ensures
            r == self.spec_nanos(),
    {
        self.nanos
    }

    /// Milliseconds since the epoch, as `DateTime::timestamp_millis` counts
    /// them.
    pub fn timestamp_millis(&self) -> (r: i64)
        ensures
            r == self.spec_secs() * 1000 + self.spec_nanos() / 1_000_000,
    {
        proof {
            use_type_invariant(self);
        }
        self.secs * 1000 + (self.nanos / 1_000_000) as i64
    }

    /// The point `secs` seconds and `nanos` nanoseconds after the epoch,
    /// when `chrono` can hold it.
    pub fn from_timestamp(secs: i64, nanos: u32) -> (r: Option<UtcTime>)
        ensures
            r is Some <==> spec_utc_valid(secs, nanos),
            r matches Some(t) ==> t.spec_secs() == secs && t.spec_nanos() == nanos,
    {
        utc_from_timestamp(secs, nanos)
    }

    /// The current time.
    pub fn now() -> (r: UtcTime) {
        utc_now()
    }
}

// ---------------------------------------------------------------------------
// Calls into chrono
//
// Every `UtcTime` that these calls make comes from a `chrono::DateTime<Utc>`,
// so it names a point that `chrono` holds, as their contracts and
// `UtcTime`'s invariant say.
// ---------------------------------------------------------------------------

/// Whether `chrono::DateTime::parse_from_rfc3339` reads a text, and the point
/// that it reads.
pub uninterp spec fn spec_parse_rfc3339(s: Seq<char>) -> Option<(i64, u32)>;

/// What `NaiveDateTime::parse_from_str` reads from a text with a format: the
/// date and time as seconds and nanoseconds after 1970-01-01 00:00:00.
pub uninterp spec fn spec_naive_datetime_parse(s: Seq<char>, fmt: Seq<char>) -> Option<(i64, u32)>;

/// What `NaiveDate::parse_from_str` reads from a text with a format: the
/// date as the seconds from 1970-01-01 to its midnight.
pub uninterp spec fn spec_naive_date_parse(s: Seq<char>, fmt: Seq<char>) -> Option<i64>;

/// What `NaiveTime::parse_from_str` reads from a text with a format: the
/// seconds after midnight and the nanoseconds.
pub uninterp spec fn spec_naive_time_parse(s: Seq<char>, fmt: Seq<char>) -> Option<(u32, u32)>;

/// What `DateTime::to_rfc3339` writes for a point in time.
pub uninterp spec fn spec_rfc3339(secs: i64, nanos: u32) -> Seq<char>;

/// What `format("%Y-%m-%d %H:%M:%S")` writes for the naive date and time
/// `secs` seconds and `nanos` nanoseconds after 1970-01-01 00:00:00.
pub uninterp spec fn spec_naive_text(secs: int, nanos: u32) -> Seq<char>;

/// `text` is how the naive date and time `secs` seconds and `nanos`
/// nanoseconds after the epoch, moved by some offset of less than a day, is
/// written: that point in some time zone.
pub open spec fn zoned_text_of(text: Seq<char>, secs: i64, nanos: u32) -> bool {
    exists|offset: int|
        -86_400 < offset < 86_400 && text == #[trigger] spec_naive_text(secs + offset, nanos)
}

/// What `a.signed_duration_since(b).num_seconds()` gives: whole seconds from
/// `b` to `a`, rounded toward zero. The difference of the seconds is
/// corrected by a leap second that one of the two points is in and the
/// other has passed within the day, and by the difference of the
/// nanoseconds.
pub open spec fn spec_seconds_between(a_secs: i64, a_nanos: u32, b_secs: i64, b_nanos: u32) -> int {
    let sa = a_secs % 86_400;
    let sb = b_secs % 86_400;
    let leap: int = if sa > sb && b_nanos >= 1_000_000_000 {
        1
    } else if sa < sb && a_nanos >= 1_000_000_000 {
        -1
    } else {
        0
    };
    let frac = a_nanos - b_nanos;
    let total = a_secs - b_secs + leap + frac / 1_000_000_000;
    if total < 0 && frac % 1_000_000_000 > 0 {
        total + 1
    } else {
        total
    }
}

/// Calls `DateTime::from_timestamp`: `chrono` holds the pair or not, and a
/// value it gives back reports the same seconds and nanoseconds.
#[verifier::external_body]
fn utc_from_timestamp(secs: i64, nanos: u32) -> (r: Option<UtcTime>)
    ensures
        r is Some <==> spec_utc_valid(secs, nanos),
        r matches Some(t) ==> t.secs == secs && t.nanos == nanos,
{
    chrono::DateTime::from_timestamp(secs, nanos).map(
        |d| UtcTime { secs: d.timestamp(), nanos: d.timestamp_subsec_nanos() },
    )
}

/// Calls `Utc.timestamp_opt(secs, 0).single()`, which its source computes
/// as `DateTime::from_timestamp(secs, 0)`.
#[verifier::external_body]
fn utc_from_secs(secs: i64) -> (r: Option<UtcTime>)
    ensures
        r is Some <==> spec_utc_valid(secs, 0),
        r matches Some(t) ==> t.secs == secs && t.nanos == 0,
{
    chrono::Utc.timestamp_opt(secs, 0).single().map(
        |d| UtcTime { secs: d.timestamp(), nanos: d.timestamp_subsec_nanos() },
    )
}

/// Calls `Utc.timestamp_millis_opt(millis).single()`, which its source
/// computes as `DateTime::from_timestamp` of the floored seconds and the
/// remaining milliseconds as nanoseconds.
#[verifier::external_body]
fn utc_from_millis(millis: i64) -> (r: Option<UtcTime>)
    ensures
        r is Some <==> spec_utc_valid(
            (millis as int / 1000) as i64,
            ((millis as int % 1000) * 1_000_000) as u32,
        ),
        r matches Some(t) ==> t.secs == millis as int / 1000 && t.nanos == (millis as int % 1000)
            * 1_000_000,
{
    chrono::Utc.timestamp_millis_opt(millis).single().map(
        |d| UtcTime { secs: d.timestamp(), nanos: d.timestamp_subsec_nanos() },
    )
}

/// Calls `Utc::now`; the time it reads is not described, but it is a
/// `DateTime<Utc>`, which `chrono` holds.
#[verifier::external_body]
fn utc_now() -> (r: UtcTime)
    ensures
        in_chrono_range(r.secs, r.nanos),
{
    let d = chrono::Utc::now();
    UtcTime { secs: d.timestamp(), nanos: d.timestamp_subsec_nanos() }
}

/// Calls `DateTime::parse_from_rfc3339` and moves the point to UTC. Its
/// source reads four-digit years and offsets in whole minutes, so the point
/// is one that `from_timestamp` accepts.
#[verifier::external_body]
fn parse_rfc3339(s: &str) -> (r: Option<UtcTime>)
    ensures
        r is Some <==> spec_parse_rfc3339(s@) is Some,
        r matches Some(t) ==> spec_parse_rfc3339(s@) == Some((t.secs, t.nanos)) && spec_utc_valid(
            t.secs,
            t.nanos,
        ),
{
    chrono::DateTime::parse_from_rfc3339(s).ok().map(
        |d| {
            let d = d.with_timezone(&chrono::Utc);
            UtcTime { secs: d.timestamp(), nanos: d.timestamp_subsec_nanos() }
        },
    )
}

/// Calls `NaiveDateTime::parse_from_str` and reports the value as seconds and
/// nanoseconds after 1970-01-01 00:00:00. Its source keeps the date in
/// `chrono`'s range and reads a second of 60 as 59 with a second's worth of
/// nanoseconds, so `from_timestamp` accepts the pair.
#[verifier::external_body]
fn naive_datetime_parse(s: &str, fmt: &str) -> (r: Option<(i64, u32)>)
    ensures
        r == spec_naive_datetime_parse(s@, fmt@),
        r matches Some(p) ==> spec_utc_valid(p.0, p.1),
{
    chrono::NaiveDateTime::parse_from_str(s, fmt).ok().map(
        |n| (n.and_utc().timestamp(), n.and_utc().timestamp_subsec_nanos()),
    )
}

/// Calls `NaiveDate::parse_from_str` and `and_hms_opt(0, 0, 0)` (midnight
/// always exists) and reports the midnight as seconds after 1970-01-01.
#[verifier::external_body]
fn naive_date_parse(s: &str, fmt: &str) -> (r: Option<i64>)
    ensures
        r == spec_naive_date_parse(s@, fmt@),
        r matches Some(d) ==> d % 86_400 == 0 && spec_utc_valid(d, 0),
{
    chrono::NaiveDate::parse_from_str(s, fmt).ok().map(
        |d| d.and_hms_opt(0, 0, 0).unwrap().and_utc().timestamp(),
    )
}

/// Calls `NaiveTime::parse_from_str` and reports the seconds after midnight
/// and the nanoseconds; its source reads a second of 60 as 59 with a
/// second's worth of nanoseconds.
#[verifier::external_body]
fn naive_time_parse(s: &str, fmt: &str) -> (r: Option<(u32, u32)>)
    ensures
        r == spec_naive_time_parse(s@, fmt@),
        r matches Some(p) ==> p.0 < 86_400 && p.1 < 2_000_000_000 && (p.1 >= 1_000_000_000
            ==> p.0 % 60 == 59),
{
    chrono::NaiveTime::parse_from_str(s, fmt).ok().map(
        |t| (chrono::Timelike::num_seconds_from_midnight(&t), chrono::Timelike::nanosecond(&t)),
    )
}

/// Calls `Local::now().date_naive()` and `and_hms_opt(0, 0, 0)`: the midnight
/// of today's date in the machine's time zone, as seconds after 1970-01-01;
/// which day that is is not stated.
#[verifier::external_body]
fn local_today() -> (r: i64)
    ensures
        r % 86_400 == 0,
        MIN_UTC_SECS <= r && r + 86_399 <= MAX_UTC_SECS,
{
    chrono::Local::now().date_naive().and_hms_opt(0, 0, 0).unwrap().and_utc().timestamp()
}

/// Calls `Local.from_local_datetime(..).single()` on the naive date and time
/// `secs` and `nanos` after 1970-01-01 00:00:00, and moves the point to UTC.
/// Its source subtracts the zone's offset, less than a day either way, from
/// the seconds and keeps the nanoseconds. Whether the local time exists once
/// in the machine's zone, and which offset applies, is not stated.
#[verifier::external_body]
fn local_to_utc(secs: i64, nanos: u32) -> (r: Option<UtcTime>)
    requires
        spec_utc_valid(secs, nanos),
    ensures
        r matches Some(t) ==> in_chrono_range(t.secs, t.nanos) && -86_400 < t.secs - secs < 86_400
            && t.nanos == nanos,
{
    let n = chrono::DateTime::from_timestamp(secs, nanos).unwrap().naive_utc();
    chrono::Local.from_local_datetime(&n).single().map(
        |d| {
            let d = d.with_timezone(&chrono::Utc);
            UtcTime { secs: d.timestamp(), nanos: d.timestamp_subsec_nanos() }
        },
    )
}

/// Calls `DateTime::to_rfc3339` on the point in UTC. The point is made with
/// `DateTime::from_timestamp`, or, for a leap second off the end of a minute
/// (which that refuses), with `from_timestamp(secs, 0)` and
/// `with_nanosecond`, which its source accepts below the last second of the
/// range.
#[verifier::external_body]
fn rfc3339_text(t: &UtcTime) -> (r: String)
    requires
        in_chrono_range(t.secs, t.nanos),
    ensures
        r@ == spec_rfc3339(t.secs, t.nanos),
{
    let d = match chrono::DateTime::from_timestamp(t.secs, t.nanos) {
        Some(d) => d,
        None => chrono::Timelike::with_nanosecond(
            &chrono::DateTime::from_timestamp(t.secs, 0).unwrap(),
            t.nanos,
        ).unwrap(),
    };
    d.to_rfc3339()
}

/// Calls `with_timezone(&Local)`, then `format("%Y-%m-%d %H:%M:%S")` and
/// `offset().local_minus_utc()` on the result. Its source formats the naive
/// local date and time, which is the point moved by that offset; the offset
/// is a `FixedOffset`, less than a day either way. Which offset the
/// machine's zone gives is not stated. The point is made as in
/// `rfc3339_text`.
#[verifier::external_body]
fn local_text(t: &UtcTime) -> (r: (String, i32))
    requires
        in_chrono_range(t.secs, t.nanos),
    ensures
        -86_400 < r.1 < 86_400,
        r.0@ == spec_naive_text(t.secs + r.1, t.nanos),
{
    let d = match chrono::DateTime::from_timestamp(t.secs, t.nanos) {
        Some(d) => d,
        None => chrono::Timelike::with_nanosecond(
            &chrono::DateTime::from_timestamp(t.secs, 0).unwrap(),
            t.nanos,
        ).unwrap(),
    }.with_timezone(&chrono::Local);
    (d.format("%Y-%m-%d %H:%M:%S").to_string(), d.offset().local_minus_utc())
}

/// Calls `signed_duration_since(..).num_seconds()` on the two points, made
/// as in `rfc3339_text`.
#[verifier::external_body]
fn seconds_between(a: &UtcTime, b: &UtcTime) -> (r: i64)
    requires
        in_chrono_range(a.secs, a.nanos),
        in_chrono_range(b.secs, b.nanos),
    ensures
        r == spec_seconds_between(a.secs, a.nanos, b.secs, b.nanos),
{
    let x = match chrono::DateTime::from_timestamp(a.secs, a.nanos) {
        Some(d) => d,
        None => chrono::Timelike::with_nanosecond(&chrono::DateTime::from_timestamp(a.secs, 0).unwrap(), a.nanos).unwrap(),
    };
    let y = match chrono::DateTime::from_timestamp(b.secs, b.nanos) {
        Some(d) => d,
        None => chrono::Timelike::with_nanosecond(&chrono::DateTime::from_timestamp(b.secs, 0).unwrap(), b.nanos).unwrap(),
    };
    x.signed_duration_since(y).num_seconds()
}

// ---------------------------------------------------------------------------
// Reading a point in time
// ---------------------------------------------------------------------------

/// Where the point of an input comes from.
#[derive(Copy, Clone, Debug, PartialEq, Eq, Structural)]
pub enum DateSource {
    /// The current time (`now`, any case, or nothing).
    Now,
    /// A timestamp in seconds.
    Secs(i64),
    /// A timestamp in milliseconds (eleven digits or more: ten billion and
    /// beyond).
    Millis(i64),
    /// An RFC 3339 date and time.
    Rfc3339,
    /// A local date and time in the format with this index.
    LocalDateTime(u8),
    /// A local date, at midnight.
    LocalDate,
    /// A local time of day, today.
    TimeToday,
    /// Nothing that can be read.
    Invalid,
}

pub open spec fn date_formats(i: int) -> Seq<char> {
    if i == 0 {
        "%Y-%m-%d %H:%M:%S"@
    } else if i == 1 {
        "%Y-%m-%d %H:%M"@
    } else {
        "%Y-%m-%d"@
    }
}

/// `s` is `now` in any mix of ASCII cases.
pub open spec fn is_now_word(s: Seq<char>) -> bool {
    lower_seq(s) == seq!['n', 'o', 'w']
}

/// Where the point of the trimmed input comes from, by the first reading that
/// works: `now` or nothing, a timestamp, RFC 3339, a local date and time in
/// each format in turn, a local date, a local time of day.
pub open spec fn spec_date_source(input: Seq<char>) -> DateSource {
    let t = spec_trim(input);
    if is_now_word(t) || t.len() == 0 {
        DateSource::Now
    } else if spec_parse_i64(t) is Some {
        let ts = spec_parse_i64(t)->0;
        if ts >= 10_000_000_000 {
            DateSource::Millis(ts)
        } else {
            DateSource::Secs(ts)
        }
    } else if spec_parse_rfc3339(t) is Some {
        DateSource::Rfc3339
    } else if spec_naive_datetime_parse(t, date_formats(0)) is Some {
        DateSource::LocalDateTime(0)
    } else if spec_naive_datetime_parse(t, date_formats(1)) is Some {
        DateSource::LocalDateTime(1)
    } else if spec_naive_datetime_parse(t, date_formats(2)) is Some {
        DateSource::LocalDateTime(2)
    } else if spec_naive_date_parse(t, date_formats(2)) is Some {
        DateSource::LocalDate
    } else if spec_naive_time_parse(t, "%H:%M:%S"@) is Some {
        DateSource::TimeToday
    } else {
        DateSource::Invalid
    }
}

/// What reading a point from `input` gives. A timestamp is taken as it is
/// (in seconds up to ten digits, in milliseconds from eleven), RFC 3339 as it
/// reads, and anything unreadable gives nothing. The current time is always
/// there. A local date and time (or a local date at midnight, or a time of
/// day on some day) may not exist once in the machine's zone; where it
/// does, the point is it moved by that zone's offset, less than a day either
/// way, with the same nanoseconds.
pub open spec fn parsed_as(input: Seq<char>, r: Option<UtcTime>) -> bool {
    let t = spec_trim(input);
    match spec_date_source(input) {
        DateSource::Now => r is Some,
        DateSource::Secs(ts) => {
            &&& r is Some <==> spec_utc_valid(ts, 0)
            &&& r matches Some(u) ==> u.spec_secs() == ts && u.spec_nanos() == 0
        },
        DateSource::Millis(ms) => {
            &&& r is Some <==> spec_utc_valid(
                (ms as int / 1000) as i64,
                ((ms as int % 1000) * 1_000_000) as u32,
            )
            &&& r matches Some(u) ==> u.spec_secs() == ms as int / 1000 && u.spec_nanos() == (
            ms as int % 1000) * 1_000_000
        },
        DateSource::Rfc3339 => r is Some && spec_parse_rfc3339(t) == Some(
            (r->0.spec_secs(), r->0.spec_nanos()),
        ),
        DateSource::LocalDateTime(i) => {
            let p = spec_naive_datetime_parse(t, date_formats(i as int))->0;
            r matches Some(u) ==> -86_400 < u.spec_secs() - p.0 < 86_400 && u.spec_nanos() == p.1
        },
        DateSource::LocalDate => {
            let d = spec_naive_date_parse(t, date_formats(2))->0;
            r matches Some(u) ==> -86_400 < u.spec_secs() - d < 86_400 && u.spec_nanos() == 0
        },
        DateSource::TimeToday => {
            let p = spec_naive_time_parse(t, "%H:%M:%S"@)->0;
            r matches Some(u) ==> u.spec_nanos() == p.1 && exists|day: int|
                #![trigger day % 86_400]
                day % 86_400 == 0 && -86_400 < u.spec_secs() - (day + p.0) < 86_400
        },
        DateSource::Invalid => r is None,
    }
}

proof fn lemma_day_and_time(day: int, secs: int)
    requires
        day % 86_400 == 0,
        0 <= secs < 86_400,
    ensures
        (day + secs) % 60 == secs % 60,
{
    assert((day + secs) % 60 == secs % 60) by (nonlinear_arith)
        requires
            day % 86_400 == 0,
    ;
}

fn is_now(t: &[char]) -> (r: bool)
    ensures
        r == is_now_word(t@),
{
    if t.len() != 3 {
        assert(lower_seq(t@).len() == t@.len());
        return false;
    }
    let a = to_ascii_lower(t[0]);
    let b = to_ascii_lower(t[1]);
    let c = to_ascii_lower(t[2]);
    let r = a == 'n' && b == 'o' && c == 'w';
    assert(r ==> lower_seq(t@) =~= seq!['n', 'o', 'w']);
    assert(lower_seq(t@) =~= seq!['n', 'o', 'w'] ==> lower_seq(t@)[0] == a && lower_seq(t@)[1]
        == b && lower_seq(t@)[2] == c);
    r
}

/// What reading a point from `input` gives when the clock reads `now`: all
/// that `parsed_as` says, and for `now` or an empty input exactly that
/// reading.
pub open spec fn parsed_at(input: Seq<char>, now: UtcTime, r: Option<UtcTime>) -> bool {
    &&& parsed_as(input, r)
    &&& spec_date_source(input) == DateSource::Now ==> r == Some(now)
}

/// `now` (in any case) or an empty input gives the clock's reading itself,
/// whatever that reading is: two readings give two different answers.
pub proof fn lemma_now_gives_the_reading(input: Seq<char>, now: UtcTime, r: Option<UtcTime>)
    requires
        parsed_at(input, now, r),
        is_now_word(spec_trim(input)) || spec_trim(input).len() == 0,
    ensures
        r == Some(now),
        r->0.spec_secs() == now.spec_secs() && r->0.spec_nanos() == now.spec_nanos(),
{
}

/// Reads a point in time from `input`: `now`, a timestamp in seconds or
/// milliseconds, an RFC 3339 date, a local date and time, or a local time
/// of day ("1700000000" is 2023-11-14T22:13:20Z). The clock reads the
/// current time once, and `now` gives that reading.
pub fn parse_datetime(input: &str) -> (r: Option<UtcTime>)
    ensures
        parsed_as(input@, r),
        exists|now: UtcTime| #[trigger] parsed_at(input@, now, r),
{
    let now = utc_now();
    let r = parse_datetime_at(input, now);
    r
}

/// Reads a point in time from `input` as `parse_datetime` does, with `now`
/// as the clock's reading.
pub fn parse_datetime_at(input: &str, now: UtcTime) -> (r: Option<UtcTime>)
    ensures
        parsed_at(input@, now, r),
{
    let cs = chars_of(input);
    let t = trim(cs.as_slice());
    let ts = string_of(t.as_slice());
    if is_now(t.as_slice()) || t.len() == 0 {
        return Some(now);
    }
    if let Some(n) = parse_i64(t.as_slice()) {
        if n >= 10_000_000_000 {
            return utc_from_millis(n);
        } else {
            return utc_from_secs(n);
        }
    }
    if let Some(d) = parse_rfc3339(ts.as_str()) {
        return Some(d);
    }
    let f0 = "%Y-%m-%d %H:%M:%S";
    let f1 = "%Y-%m-%d %H:%M";
    let f2 = "%Y-%m-%d";
    if let Some((secs, nanos)) = naive_datetime_parse(ts.as_str(), f0) {
        return local_to_utc(secs, nanos);
    }
    if let Some((secs, nanos)) = naive_datetime_parse(ts.as_str(), f1) {
        return local_to_utc(secs, nanos);
    }
    if let Some((secs, nanos)) = naive_datetime_parse(ts.as_str(), f2) {
        return local_to_utc(secs, nanos);
    }
    if let Some(midnight) = naive_date_parse(ts.as_str(), f2) {
        return local_to_utc(midnight, 0);
    }
    let hms = "%H:%M:%S";
    if let Some((secs, nanos)) = naive_time_parse(ts.as_str(), hms) {
        let today = local_today();
        proof {
            lemma_day_and_time(today as int, secs as int);
        }
        let r = local_to_utc(today + secs as i64, nanos);
        assert(r matches Some(u) ==> -86_400 < u.spec_secs() - (today + secs) < 86_400);
        return r;
    }
    None
}


// ---------------------------------------------------------------------------
// Describing a point in time
// ---------------------------------------------------------------------------

/// A length of time of `abs` seconds in its largest whole unit: seconds below
/// a minute, minutes below an hour, hours below a day, days otherwise.
pub open spec fn unit_text(abs: nat) -> Seq<char> {
    if abs < 60 {
        dec_digits(abs) + seq!['s']
    } else if abs < 3600 {
        dec_digits(abs / 60) + seq!['m']
    } else if abs < 86400 {
        dec_digits(abs / 3600) + seq!['h']
    } else {
        dec_digits(abs / 86400) + seq!['d']
    }
}

/// How long ago (`seconds > 0`) or how far ahead (`seconds < 0`) a point is:
/// "5m ago", "in 2h", "just now".
pub open spec fn spec_relative_text(seconds: int) -> Seq<char> {
    if seconds > 0 {
        unit_text(seconds as nat) + seq![' ', 'a', 'g', 'o']
    } else if seconds < 0 {
        seq!['i', 'n', ' '] + unit_text((-seconds) as nat)
    } else {
        seq!['j', 'u', 's', 't', ' ', 'n', 'o', 'w']
    }
}

/// The relative text says which way the point lies: "… ago" for the past,
/// "in …" for the future, "just now" for the present second.
pub proof fn lemma_relative_text_direction(seconds: int)
    ensures
        seconds > 0 ==> spec_relative_text(seconds).subrange(
            spec_relative_text(seconds).len() - 4,
            spec_relative_text(seconds).len() as int,
        ) == seq![' ', 'a', 'g', 'o'],
        seconds < 0 ==> spec_relative_text(seconds).subrange(0, 3) == seq!['i', 'n', ' '],
        seconds == 0 ==> spec_relative_text(seconds) == seq!['j', 'u', 's', 't', ' ', 'n', 'o', 'w'],
{
    if seconds > 0 {
        let u = unit_text(seconds as nat);
        assert((u + seq![' ', 'a', 'g', 'o']).subrange(u.len() as int, (u.len() + 4) as int) =~= seq![
            ' ',
            'a',
            'g',
            'o',
        ]);
    } else if seconds < 0 {
        let u = unit_text((-seconds) as nat);
        assert((seq!['i', 'n', ' '] + u).subrange(0, 3) =~= seq!['i', 'n', ' ']);
    }
}

/// Says how long ago a point `seconds` seconds in the past was ("10s ago";
/// a negative count is in the future: "in 10s").
pub fn relative_time_from_seconds(seconds: i64) -> (r: String)
    requires
        seconds != i64::MIN,
    ensures
        r@ == spec_relative_text(seconds as int),
{
    let abs: i64 = if seconds < 0 {
        -seconds
    } else {
        seconds
    };
    let (count, unit) = if abs < 60 {
        (abs, 's')
    } else if abs < 3600 {
        (abs / 60, 'm')
    } else if abs < 86400 {
        (abs / 3600, 'h')
    } else {
        (abs / 86400, 'd')
    };
    let digits = i64_to_chars(count);
    let mut u = string_of(digits.as_slice());
    crate::strings::std_push_char(&mut u, unit);
    assert(u@ =~= unit_text(abs as nat));
    if seconds > 0 {
        let mut r = u;
        crate::strings::std_push_char(&mut r, ' ');
        crate::strings::std_push_char(&mut r, 'a');
        crate::strings::std_push_char(&mut r, 'g');
        crate::strings::std_push_char(&mut r, 'o');
        assert(r@ =~= spec_relative_text(seconds as int));
        r
    } else if seconds < 0 {
        let mut r = String::new();
        crate::strings::std_push_char(&mut r, 'i');
        crate::strings::std_push_char(&mut r, 'n');
        crate::strings::std_push_char(&mut r, ' ');
        push_str(&mut r, u.as_str());
        assert(r@ =~= spec_relative_text(seconds as int));
        r
    } else {
        let r = copy_str("just now");
        proof {
            reveal_strlit("just now");
        }
        assert(r@ =~= spec_relative_text(seconds as int));
        r
    }
}

/// The relative text of `t` as seen at `now`.
pub open spec fn relative_from(now: UtcTime, t: UtcTime) -> Seq<char> {
    spec_relative_text(
        spec_seconds_between(now.spec_secs(), now.spec_nanos(), t.spec_secs(), t.spec_nanos()) as int,
    )
}

/// Says how long ago `dt` was, or how far ahead it is, from now.
pub fn relative_time(dt: &UtcTime) -> (r: String)
    ensures
        exists|now: UtcTime| r@ == #[trigger] relative_from(now, *dt),
{
    let now = utc_now();
    proof {
        use_type_invariant(&now);
        use_type_invariant(dt);
    }
    let seconds = seconds_between(&now, dt);
    let r = relative_time_from_seconds(seconds);
    assert(r@ == relative_from(now, *dt));
    r
}

/// The five descriptions of the point `t`, in this order: local time (as
/// the machine's zone writes it, `local`), seconds, milliseconds, RFC 3339
/// in UTC, and relative time (`rel`).
pub open spec fn time_items_are(
    items: Seq<AlfredItem>,
    t: UtcTime,
    local: Seq<char>,
    rel: Seq<char>,
) -> bool {
    let secs = spec_int_to_string(t.spec_secs() as int);
    let ms = spec_int_to_string(t.spec_secs() * 1000 + t.spec_nanos() / 1_000_000);
    let utc = spec_rfc3339(t.spec_secs(), t.spec_nanos());
    &&& items.len() == 5
    &&& item_is(items[0], "local"@, local, "Local Time"@, local)
    &&& item_is(items[1], "sec"@, secs, "Timestamp (Seconds)"@, secs)
    &&& item_is(items[2], "ms"@, ms, "Timestamp (Millis)"@, ms)
    &&& item_is(items[3], "utc"@, utc, "UTC (ISO 8601)"@, utc)
    &&& item_is(items[4], "rel"@, rel, "Relative Time"@, rel)
}

/// The items describing `t`, given its local-time text and relative text.
pub fn time_items(t: &UtcTime, local: &str, rel: &str) -> (items: Vec<AlfredItem>)
    ensures
        time_items_are(items@, *t, local@, rel@),
{
    proof {
        use_type_invariant(t);
    }
    let mut items: Vec<AlfredItem> = Vec::new();
    items.push(AlfredItem::new("local", local, "Local Time", local));
    let secs = string_of(i64_to_chars(t.timestamp()).as_slice());
    items.push(AlfredItem::new("sec", secs.as_str(), "Timestamp (Seconds)", secs.as_str()));
    let ms = string_of(i64_to_chars(t.timestamp_millis()).as_slice());
    items.push(AlfredItem::new("ms", ms.as_str(), "Timestamp (Millis)", ms.as_str()));
    let utc = rfc3339_text(t);
    items.push(AlfredItem::new("utc", utc.as_str(), "UTC (ISO 8601)", utc.as_str()));
    items.push(AlfredItem::new("rel", rel, "Relative Time", rel));
    items
}

/// The local time of `t` as the machine's time zone writes it
/// ("2023-11-15 06:13:20"): the date and time of `t` moved by that zone's
/// offset, which is less than a day either way.
pub fn local_time_text(t: &UtcTime) -> (r: String)
    ensures
        zoned_text_of(r@, t.spec_secs(), t.spec_nanos()),
{
    proof {
        use_type_invariant(t);
    }
    let (text, _offset) = local_text(t);
    text
}

/// The items describing `t` now: its local time, timestamps, RFC 3339 text
/// and relative time.
pub fn describe_time(t: &UtcTime) -> (items: Vec<AlfredItem>)
    ensures
        exists|local: Seq<char>, now: UtcTime|
            #[trigger] time_items_are(items@, *t, local, relative_from(now, *t)) && zoned_text_of(
                local,
                t.spec_secs(),
                t.spec_nanos(),
            ),
{
    let local = local_time_text(t);
    let rel = relative_time(t);
    let items = time_items(t, local.as_str(), rel.as_str());
    let ghost now = choose|now: UtcTime| rel@ == #[trigger] relative_from(now, *t);
    assert(time_items_are(items@, *t, local@, relative_from(now, *t)));
    items
}

/// The message for an input that is no point in time.
pub open spec fn invalid_date_message(input: Seq<char>) -> Seq<char> {
    "Invalid date format: "@ + input
}

/// The single error item for an input that is no point in time.
pub fn invalid_date_items(input: &str) -> (items: Vec<AlfredItem>)
    ensures
        items@.len() == 1,
        item_is(items@[0], "error"@, "Error"@, invalid_date_message(input@), invalid_date_message(input@)),
{
    let mut msg = copy_str("Invalid date format: ");
    push_str(&mut msg, input);
    let mut items: Vec<AlfredItem> = Vec::new();
    items.push(AlfredItem::new("error", "Error", msg.as_str(), msg.as_str()));
    items
}


// ---------------------------------------------------------------------------
// What the command does
// ---------------------------------------------------------------------------

/// What the timestamp tool does with an input.
pub enum TsAction {
    /// The input (`now` when none was given), its point, and the items
    /// describing it.
    Described(String, UtcTime, Vec<AlfredItem>),
    /// The input, the error message and the error item.
    Invalid(String, String, Vec<AlfredItem>),
}

/// The arguments of the timestamp tool.
pub struct TsArgs {
    /// The words of the input, if given on the command line.
    pub input: Option<Vec<String>>,
    /// Answer with Alfred items.
    pub alfred: bool,
}

/// The input that the tool reads: `now` when nothing was given.
pub open spec fn effective_input(raw: Seq<char>) -> Seq<char> {
    if raw.len() == 0 {
        "now"@
    } else {
        raw
    }
}

/// What the timestamp tool does: reads a point from the input (or the
/// current time when there is none) and describes it, or reports that the
/// input is no point in time.
pub fn ts_plan(raw: &str) -> (r: TsAction)
    ensures
        ({
            let input = effective_input(raw@);
            match r {
                TsAction::Described(shown, t, items) => {
                    &&& shown@ == input
                    &&& parsed_as(input, Some(t))
                    &&& exists|local: Seq<char>, now: UtcTime|
                        #[trigger] time_items_are(items@, t, local, relative_from(now, t))
                            && zoned_text_of(local, t.spec_secs(), t.spec_nanos())
                },
                TsAction::Invalid(shown, msg, items) => {
                    &&& shown@ == input
                    &&& parsed_as(input, None)
                    &&& msg@ == invalid_date_message(input)
                    &&& items@.len() == 1
                    &&& item_is(items@[0], "error"@, "Error"@, msg@, msg@)
                },
            }
        }),
{
    let input = if raw.is_empty() {
        copy_str("now")
    } else {
        copy_str(raw)
    };
    assert(input@ == effective_input(raw@));
    match parse_datetime(input.as_str()) {
        Some(t) => {
            let items = describe_time(&t);
            assert(parsed_as(input@, Some(t)));
            let ghost (local, now) = choose|local: Seq<char>, now: UtcTime|
                #[trigger] time_items_are(items@, t, local, relative_from(now, t));
            let r = TsAction::Described(input, t, items);
            assert(r matches TsAction::Described(_, tt, ii) && time_items_are(ii@, tt, local, relative_from(now, tt)));
            r
        },
        None => {
            let mut msg = copy_str("Invalid date format: ");
            push_str(&mut msg, input.as_str());
            let items = invalid_date_items(input.as_str());
            assert(msg@ == invalid_date_message(input@));
            TsAction::Invalid(input, msg, items)
        },
    }
}

} // verus!
