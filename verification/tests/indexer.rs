use mgi_pulse::engine::indexer::{parse_ts_level, Indexes};
use mgi_pulse::engine::parse::parse_rfc3339_micros;
use mgi_pulse::engine::record::severity;
use mgi_pulse::engine::record::TS_UNTIMED;

#[test]
fn indexer_rfc3339_basic() {
    let micros = parse_rfc3339_micros("1970-01-01T00:00:00Z").unwrap();
    assert_eq!(micros, 0);
    let micros = parse_rfc3339_micros("1970-01-01T00:00:01Z").unwrap();
    assert_eq!(micros, 1_000_000);
}

#[test]
fn indexer_rfc3339_fractional() {
    // Nanosecond precision is truncated to micros (not rounded).
    let micros = parse_rfc3339_micros("2026-06-01T12:00:00.123456789Z").unwrap();
    // 2026-06-01T12:00:00Z = ?
    let base = parse_rfc3339_micros("2026-06-01T12:00:00Z").unwrap();
    assert_eq!(micros - base, 123_456);

    // Sub-microsecond fractional pads with zeros.
    let micros = parse_rfc3339_micros("2026-06-01T12:00:00.5Z").unwrap();
    assert_eq!(micros - base, 500_000);
}

#[test]
fn indexer_rfc3339_offset() {
    let utc = parse_rfc3339_micros("2026-06-01T12:00:00Z").unwrap();
    let east = parse_rfc3339_micros("2026-06-01T15:00:00+03:00").unwrap();
    assert_eq!(utc, east);
    let west = parse_rfc3339_micros("2026-06-01T07:00:00-05:00").unwrap();
    assert_eq!(utc, west);
}

#[test]
fn indexer_rfc3339_rejects_garbage() {
    assert!(parse_rfc3339_micros("").is_none());
    assert!(parse_rfc3339_micros("2026-06-01").is_none());
    assert!(parse_rfc3339_micros("not a date").is_none());
    // Trailing junk.
    assert!(parse_rfc3339_micros("2026-06-01T12:00:00Zextra").is_none());
    // Wrong separator.
    assert!(parse_rfc3339_micros("2026/06/01T12:00:00Z").is_none());
}

#[test]
fn ts_level_parser_handles_missing_fields() {
    let mut idx = Indexes::default();
    let (ts, sev) = parse_ts_level(b"{}", &mut idx);
    assert_eq!(ts, TS_UNTIMED);
    assert_eq!(sev, severity::UNKNOWN);
    // Missing-ts counts as untimed_on_file.
    assert_eq!(idx.untimed_on_file, 1);
    assert_eq!(idx.json_parse_errors, 0);
}

#[test]
fn ts_level_parser_handles_bad_ts() {
    let mut idx = Indexes::default();
    let (ts, sev) = parse_ts_level(
        br#"{"ts":"not a date","level":"warn"}"#,
        &mut idx,
    );
    assert_eq!(ts, TS_UNTIMED);
    assert_eq!(sev, severity::WARN);
    assert_eq!(idx.ts_parse_errors, 1);
}

#[test]
fn ts_level_parser_happy_path() {
    let mut idx = Indexes::default();
    let (ts, sev) = parse_ts_level(
        br#"{"ts":"2026-06-01T12:00:00Z","level":"error","other":"ignored"}"#,
        &mut idx,
    );
    assert_eq!(sev, severity::ERROR);
    assert!(ts > 0);
    assert_eq!(idx.untimed_on_file, 0);
    assert_eq!(idx.ts_parse_errors, 0);
    assert_eq!(idx.json_parse_errors, 0);
}

#[test]
fn ts_level_parser_handles_non_json() {
    let mut idx = Indexes::default();
    let (ts, sev) = parse_ts_level(b"just a raw line", &mut idx);
    assert_eq!(ts, TS_UNTIMED);
    assert_eq!(sev, severity::UNKNOWN);
    assert_eq!(idx.json_parse_errors, 1);
}
