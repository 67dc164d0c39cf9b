use mgi_pulse::engine::parse::ParseStats;
use mgi_pulse::engine::parse_regex::{compile_pattern, project_field, ts_and_level};
use mgi_pulse::engine::record::severity;
use mgi_pulse::engine::record::TS_UNTIMED;

#[test]
fn extracts_ts_level_msg_named_captures() {
    let re = compile_pattern(
        r"(?P<ts>\d{4}-\d{2}-\d{2}[ T]\d{2}:\d{2}:\d{2})\s+(?P<level>\w+)\s+(?P<msg>.*)",
    )
    .unwrap();
    let mut stats = ParseStats::default();
    let line = b"2026-06-01 12:00:00 INFO server started";
    let (ts, sev) = ts_and_level(line, &re, &mut stats, None);
    assert!(ts > 0);
    assert_eq!(sev, severity::INFO);
    assert_eq!(
        project_field(line, &re, "msg").as_deref(),
        Some("server started")
    );
}

#[test]
fn captures_arbitrary_field() {
    // `[^\]]+` for thread because real thread names contain `-`
    // and `:` which `\w` excludes.
    let re = compile_pattern(
        r"\[(?P<thread>[^\]]+)\]\s+(?P<level>\w+)\s+(?P<msg>.*)",
    )
    .unwrap();
    let line = b"[worker-3] INFO hello";
    assert_eq!(
        project_field(line, &re, "thread").as_deref(),
        Some("worker-3")
    );
}

#[test]
fn padded_ts_handles_short_prefix() {
    let re = compile_pattern(r"(?P<ts>\d{4})\s+(?P<msg>.*)").unwrap();
    let mut stats = ParseStats::default();
    let line = b"2026 boot";
    let (ts, _) = ts_and_level(line, &re, &mut stats, None);
    assert!(ts > 0);
}

#[test]
fn unmatched_line_increments_parse_errors() {
    let re = compile_pattern(r"^DOES_NOT_MATCH").unwrap();
    let mut stats = ParseStats::default();
    let (ts, sev) = ts_and_level(b"random text", &re, &mut stats, None);
    assert_eq!(ts, TS_UNTIMED);
    assert_eq!(sev, severity::UNKNOWN);
    assert_eq!(stats.json_parse_errors, 1);
}

#[test]
fn matched_without_ts_capture_is_untimed_but_severity_kept() {
    let re = compile_pattern(r"^(?P<level>\w+):\s+(?P<msg>.*)").unwrap();
    let mut stats = ParseStats::default();
    let (ts, sev) = ts_and_level(b"WARN: queue full", &re, &mut stats, None);
    assert_eq!(ts, TS_UNTIMED);
    assert_eq!(sev, severity::WARN);
    assert_eq!(stats.untimed, 1);
}

#[test]
fn level_alias_returns_lowercase_known_name() {
    let re = compile_pattern(r"(?P<level>\w+)").unwrap();
    assert_eq!(project_field(b"ERROR", &re, "level").as_deref(), Some("error"));
    assert_eq!(project_field(b"info", &re, "level").as_deref(), Some("info"));
}

#[test]
fn level_alias_falls_through_when_value_is_unknown() {
    let re = compile_pattern(r"(?P<level>\w+)").unwrap();
    assert_eq!(
        project_field(b"NOTICE", &re, "level").as_deref(),
        Some("NOTICE")
    );
}

#[test]
fn compile_pattern_surfaces_errors() {
    assert!(compile_pattern("[unbalanced").is_err());
}
