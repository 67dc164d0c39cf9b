use mgi_pulse::engine::format::{FieldCache, LogFormat};
use mgi_pulse::engine::parse::{FieldNames, ParseStats};
use mgi_pulse::engine::record::severity;

#[test]
fn ndjson_parse_ts_level_uses_defaults() {
    let mut stats = ParseStats::default();
    let line = br#"{"ts":"2026-06-01T12:00:00Z","level":"error","msg":"boom"}"#;
    let (ts, sev) = LogFormat::Ndjson.parse_ts_level(line, &mut stats, None);
    assert!(ts > 0);
    assert_eq!(sev, severity::ERROR);
    assert_eq!(stats.untimed, 0);
}

#[test]
fn ndjson_parse_ts_level_honors_override() {
    let mut stats = ParseStats::default();
    let fields = FieldNames {
        ts: "@timestamp".to_string(),
        level: "severity_text".to_string(),
    };
    let line = br#"{"@timestamp":"2026-06-01T12:00:00Z","severity_text":"warn","msg":"x"}"#;
    let (ts, sev) = LogFormat::Ndjson.parse_ts_level(line, &mut stats, Some(&fields));
    assert!(ts > 0);
    assert_eq!(sev, severity::WARN);
}

#[test]
fn ndjson_project_field_handles_string_and_number() {
    let line = br#"{"logger":"app","n":5}"#;
    assert_eq!(
        LogFormat::Ndjson.project_field(line, "logger").as_deref(),
        Some("app")
    );
    assert_eq!(
        LogFormat::Ndjson.project_field(line, "n").as_deref(),
        Some("5")
    );
    assert!(LogFormat::Ndjson
        .project_field(br#"{"logger":"app"}"#, "missing")
        .is_none());
}

#[test]
fn logfmt_project_field_finds_quoted_value() {
    let line = br#"level=info msg="hello world" user=admin"#;
    assert_eq!(
        LogFormat::Logfmt.project_field(line, "msg").as_deref(),
        Some("hello world")
    );
    assert_eq!(
        LogFormat::Logfmt.project_field(line, "user").as_deref(),
        Some("admin")
    );
}

#[test]
fn logfmt_parse_ts_level_round_trip() {
    let mut stats = ParseStats::default();
    let line = b"ts=2026-06-01T12:00:00Z level=error msg=boom";
    let (ts, sev) = LogFormat::Logfmt.parse_ts_level(line, &mut stats, None);
    assert!(ts > 0);
    assert_eq!(sev, severity::ERROR);
}

#[test]
fn detect_picks_logfmt_when_multiple_kv_pairs() {
    let lines: Vec<&[u8]> = vec![
        b"level=info ts=2026 msg=start",
        b"level=warn ts=2027 msg=slow",
    ];
    assert_eq!(LogFormat::detect(&lines), LogFormat::Logfmt);
}

#[test]
fn detect_picks_ndjson_when_lines_look_like_json() {
    let lines: Vec<&[u8]> = vec![br#"{"a":1}"#, br#"{"b":2}"#];
    assert_eq!(LogFormat::detect(&lines), LogFormat::Ndjson);
}

#[test]
fn detect_defaults_to_ndjson_for_plain_text() {
    let lines: Vec<&[u8]> = vec![b"plain", b"text without kv"];
    assert_eq!(LogFormat::detect(&lines), LogFormat::Ndjson);
}

#[test]
fn detect_picks_syslog_when_lines_have_pri_version() {
    let lines: Vec<&[u8]> = vec![
        b"<134>1 2026-06-01T12:00:00Z host app 1 - - hi",
        b"<131>1 2026-06-01T12:00:01Z host app 1 - - oops",
    ];
    assert_eq!(LogFormat::detect(&lines), LogFormat::Syslog);
}

#[test]
fn ndjson_is_never_continuation() {
    assert!(!LogFormat::Ndjson.is_continuation(b"    at foo()"));
    assert!(!LogFormat::Ndjson.is_continuation(b"random"));
}

#[test]
fn field_cache_parses_once_per_field() {
    let line = br#"{"logger":"app","level":"info"}"#;
    let mut cache = FieldCache::new(LogFormat::Ndjson, line);
    let a = cache.get("logger");
    assert_eq!(a, Some("app"));
    // Same key, hits the cache.
    let b = cache.get("logger");
    assert_eq!(b, Some("app"));
    // Different key.
    assert_eq!(cache.get("level"), Some("info"));
    // Missing.
    assert_eq!(cache.get("missing"), None);
}

#[test]
fn field_cache_reset_clears_state() {
    let line1 = br#"{"a":"x"}"#;
    let line2 = br#"{"a":"y"}"#;
    let mut cache = FieldCache::new(LogFormat::Ndjson, line1);
    assert_eq!(cache.get("a"), Some("x"));
    cache.reset(line2);
    assert_eq!(cache.get("a"), Some("y"));
}

#[test]
fn tables_and_patterns_are_read_twice() {
    for format in [LogFormat::Csv, LogFormat::Tsv, LogFormat::Regex] {
        assert!(format.is_read_twice());
        assert!(format.keeps_counters(false));
    }
    assert!(!LogFormat::Ndjson.is_read_twice());
    assert!(LogFormat::Ndjson.keeps_counters(true));
    assert!(!LogFormat::Ndjson.keeps_counters(false));
}
