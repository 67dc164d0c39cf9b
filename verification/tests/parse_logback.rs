use mgi_pulse::engine::parse::ParseStats;
use mgi_pulse::engine::parse_logback::{
    is_continuation, looks_like_logback, project_field, ts_and_level,
};
use mgi_pulse::engine::record::severity;
use mgi_pulse::engine::record::TS_UNTIMED;

#[test]
fn parses_canonical_logback_line() {
    let mut stats = ParseStats::default();
    let line = b"2026-06-01 12:00:00.123 INFO  [main] com.example.App - server started";
    let (ts, sev) = ts_and_level(line, &mut stats, None);
    assert!(ts > 0);
    assert_eq!(sev, severity::INFO);
    assert_eq!(stats.untimed, 0);
}

#[test]
fn parses_log4j2_comma_millis() {
    let mut stats = ParseStats::default();
    let line = b"2026-06-01 12:00:00,123 ERROR [http-exec-1] c.e.Ctrl - boom";
    let (ts, sev) = ts_and_level(line, &mut stats, None);
    assert!(ts > 0);
    assert_eq!(sev, severity::ERROR);
}

#[test]
fn parses_line_without_thread_block() {
    // Some log4j2 patterns omit the thread.
    let mut stats = ParseStats::default();
    let line = b"2026-06-01 12:00:00.123 WARN com.example - slow query";
    let (_, sev) = ts_and_level(line, &mut stats, None);
    assert_eq!(sev, severity::WARN);
}

#[test]
fn projects_thread_and_logger() {
    let line = b"2026-06-01 12:00:00.123 INFO  [http-nio-8080-exec-1] c.e.Controller - hi";
    assert_eq!(
        project_field(line, "thread").as_deref(),
        Some("http-nio-8080-exec-1")
    );
    assert_eq!(
        project_field(line, "logger").as_deref(),
        Some("c.e.Controller")
    );
    assert_eq!(project_field(line, "msg").as_deref(), Some("hi"));
    assert_eq!(project_field(line, "level").as_deref(), Some("INFO"));
}

#[test]
fn stack_trace_is_continuation() {
    assert!(is_continuation(b"\tat com.example.App.main(App.java:42)"));
    assert!(is_continuation(b"Caused by: java.lang.NullPointerException"));
    assert!(is_continuation(b"  ... 12 more"));
    // A line that starts a fresh record (with a digit) is not a continuation.
    assert!(!is_continuation(
        b"2026-06-01 12:00:01.000 INFO [main] x - y"
    ));
}

#[test]
fn parse_logback_malformed_increments_parse_errors() {
    let mut stats = ParseStats::default();
    let (ts, sev) = ts_and_level(b"this is not logback", &mut stats, None);
    assert_eq!(ts, TS_UNTIMED);
    assert_eq!(sev, severity::UNKNOWN);
    assert_eq!(stats.json_parse_errors, 1);
}

#[test]
fn looks_like_logback_matches() {
    assert!(looks_like_logback(
        b"2026-06-01 12:00:00.123 INFO [main] x - y"
    ));
    assert!(looks_like_logback(
        b"2026-06-01 12:00:00,123 ERROR [t] x - y"
    ));
    assert!(looks_like_logback(b"2026-06-01 12:00:00 WARN x - y"));
}

#[test]
fn looks_like_logback_rejects_python_and_other() {
    // Python has ` - module - ` not ` LEVEL `.
    assert!(!looks_like_logback(
        b"2026-06-01 12:00:00,123 - my.module - INFO - boom"
    ));
    assert!(!looks_like_logback(br#"{"a":1}"#));
    assert!(!looks_like_logback(
        b"<134>1 2026-06-01T12:00:00Z host app 1 - - hi"
    ));
}
