use mgi_pulse::engine::parse::{parse_rfc3339_micros, ts_and_level, ParseStats};
use mgi_pulse::engine::record::severity;
use mgi_pulse::engine::record::TS_UNTIMED;

#[test]
fn parse_rfc3339_basic() {
    assert_eq!(parse_rfc3339_micros("1970-01-01T00:00:00Z"), Some(0));
    assert_eq!(
        parse_rfc3339_micros("1970-01-01T00:00:01Z"),
        Some(1_000_000)
    );
}

#[test]
fn parse_rfc3339_fractional() {
    let micros = parse_rfc3339_micros("2026-06-01T12:00:00.123456789Z").unwrap();
    let base = parse_rfc3339_micros("2026-06-01T12:00:00Z").unwrap();
    assert_eq!(micros - base, 123_456);
    let micros = parse_rfc3339_micros("2026-06-01T12:00:00.5Z").unwrap();
    assert_eq!(micros - base, 500_000);
}

#[test]
fn parse_rfc3339_offset() {
    let utc = parse_rfc3339_micros("2026-06-01T12:00:00Z").unwrap();
    let east = parse_rfc3339_micros("2026-06-01T15:00:00+03:00").unwrap();
    assert_eq!(utc, east);
    let west = parse_rfc3339_micros("2026-06-01T07:00:00-05:00").unwrap();
    assert_eq!(utc, west);
}

#[test]
fn parse_rfc3339_rejects_garbage() {
    assert!(parse_rfc3339_micros("").is_none());
    assert!(parse_rfc3339_micros("2026-06-01").is_none());
    assert!(parse_rfc3339_micros("not a date").is_none());
    assert!(parse_rfc3339_micros("2026-06-01T12:00:00Zextra").is_none());
    assert!(parse_rfc3339_micros("2026/06/01T12:00:00Z").is_none());
}

#[test]
fn ts_and_level_missing_fields() {
    let mut s = ParseStats::default();
    let (ts, sev) = ts_and_level(b"{}", &mut s);
    assert_eq!(ts, TS_UNTIMED);
    assert_eq!(sev, severity::UNKNOWN);
    assert_eq!(s.untimed, 1);
    assert_eq!(s.json_parse_errors, 0);
}

#[test]
fn ts_and_level_bad_ts() {
    let mut s = ParseStats::default();
    let (ts, sev) = ts_and_level(br#"{"ts":"not a date","level":"warn"}"#, &mut s);
    assert_eq!(ts, TS_UNTIMED);
    assert_eq!(sev, severity::WARN);
    assert_eq!(s.ts_parse_errors, 1);
}

#[test]
fn ts_and_level_happy_path() {
    let mut s = ParseStats::default();
    let (ts, sev) = ts_and_level(
        br#"{"ts":"2026-06-01T12:00:00Z","level":"error","other":"x"}"#,
        &mut s,
    );
    assert_eq!(sev, severity::ERROR);
    assert!(ts > 0);
    assert_eq!(s.untimed, 0);
    assert_eq!(s.ts_parse_errors, 0);
    assert_eq!(s.json_parse_errors, 0);
}

#[test]
fn ts_and_level_non_json() {
    let mut s = ParseStats::default();
    let (ts, sev) = ts_and_level(b"just a raw line", &mut s);
    assert_eq!(ts, TS_UNTIMED);
    assert_eq!(sev, severity::UNKNOWN);
    assert_eq!(s.json_parse_errors, 1);
}
