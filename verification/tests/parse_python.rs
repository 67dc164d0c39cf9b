use mgi_pulse::engine::parse::ParseStats;
use mgi_pulse::engine::parse_python::{is_continuation, project_field, ts_and_level};
use mgi_pulse::engine::record::severity;
use mgi_pulse::engine::record::TS_UNTIMED;

#[test]
fn parses_default_format() {
    let mut stats = ParseStats::default();
    let line = b"2026-06-01 12:00:00,123 - my.module - INFO - server started";
    let (ts, sev) = ts_and_level(line, &mut stats, None);
    assert!(ts > 0);
    assert_eq!(sev, severity::INFO);
}

#[test]
fn handles_millis_with_comma() {
    let mut stats = ParseStats::default();
    let line1 = b"2026-06-01 12:00:00,000 - x - DEBUG - a";
    let line2 = b"2026-06-01 12:00:01,500 - x - DEBUG - b";
    let (t1, _) = ts_and_level(line1, &mut stats, None);
    let (t2, _) = ts_and_level(line2, &mut stats, None);
    assert!(t2 > t1);
}

#[test]
fn extracts_logger_and_message() {
    let line = b"2026-06-01 12:00:00,123 - my.module - INFO - server started";
    // logger/msg come back as bytes after the separator; leading
    // space is part of the field. Real callers (TUI) display them
    // verbatim, no trim.
    assert_eq!(
        project_field(line, "logger"),
        Some("my.module".to_string())
    );
    assert_eq!(project_field(line, "level"), Some("INFO".to_string()));
    assert_eq!(
        project_field(line, "msg"),
        Some("server started".to_string())
    );
}

#[test]
fn rejects_non_python_line() {
    let mut stats = ParseStats::default();
    let line = b"this is not python at all";
    let (ts, sev) = ts_and_level(line, &mut stats, None);
    assert_eq!(ts, TS_UNTIMED);
    assert_eq!(sev, severity::UNKNOWN);
}

#[test]
fn continuation_recognizes_traceback() {
    assert!(is_continuation(b"Traceback (most recent call last):"));
    assert!(is_continuation(b"  File \"app.py\", line 42, in main"));
    assert!(is_continuation(b"    raise ValueError(\"bad\")"));
    assert!(is_continuation(b"ValueError: bad"));
    // A new line that starts with a digit is a new record.
    assert!(!is_continuation(b"2026-06-01 12:00:00,123 - x - INFO - y"));
}
