use mgi_pulse::engine::parse::ParseStats;
use mgi_pulse::engine::parse_syslog::{looks_like_syslog, project_field, ts_and_level};
use mgi_pulse::engine::record::severity;
use mgi_pulse::engine::record::TS_UNTIMED;

#[test]
fn parses_simple_5424_line() {
    let mut stats = ParseStats::default();
    // PRI=134 → facility=16 (local0), severity=6 (info)
    let line = b"<134>1 2026-06-01T12:00:00.123Z host01 my.app 1234 - - server started";
    let (ts, sev) = ts_and_level(line, &mut stats, None);
    assert!(ts > 0);
    assert_eq!(sev, severity::INFO);
    assert_eq!(stats.untimed, 0);
}

#[test]
fn pri_severity_3_maps_to_error() {
    let mut stats = ParseStats::default();
    // PRI=131 → severity=3 (err)
    let line = b"<131>1 2026-06-01T12:00:00Z host app 1 - - DB timeout";
    let (_, sev) = ts_and_level(line, &mut stats, None);
    assert_eq!(sev, severity::ERROR);
}

#[test]
fn pri_severity_2_maps_to_fatal() {
    let mut stats = ParseStats::default();
    // PRI=2 → severity=2 (crit)
    let line = b"<2>1 2026-06-01T12:00:00Z host app 1 - - heap exhausted";
    let (_, sev) = ts_and_level(line, &mut stats, None);
    assert_eq!(sev, severity::FATAL);
}

#[test]
fn pri_severity_7_maps_to_debug() {
    let mut stats = ParseStats::default();
    let line = b"<15>1 2026-06-01T12:00:00Z host app 1 - - verbose";
    let (_, sev) = ts_and_level(line, &mut stats, None);
    assert_eq!(sev, severity::DEBUG);
}

#[test]
fn nilvalue_timestamp_lands_in_untimed() {
    let mut stats = ParseStats::default();
    let line = b"<134>1 - host app 1 - - bootstrap";
    let (ts, sev) = ts_and_level(line, &mut stats, None);
    assert_eq!(ts, TS_UNTIMED);
    assert_eq!(sev, severity::INFO);
    assert_eq!(stats.untimed, 1);
    assert_eq!(stats.ts_parse_errors, 0);
}

#[test]
fn parse_syslog_malformed_increments_parse_errors() {
    let mut stats = ParseStats::default();
    // No `<` at start — not even a syslog frame.
    let line = b"this is not syslog";
    let (ts, sev) = ts_and_level(line, &mut stats, None);
    assert_eq!(ts, TS_UNTIMED);
    assert_eq!(sev, severity::UNKNOWN);
    assert_eq!(stats.json_parse_errors, 1);
}

#[test]
fn projects_header_fields() {
    let line = b"<134>1 2026-06-01T12:00:00Z host01 my.app 1234 audit - server started";
    assert_eq!(project_field(line, "host").as_deref(), Some("host01"));
    assert_eq!(project_field(line, "app").as_deref(), Some("my.app"));
    assert_eq!(project_field(line, "procid").as_deref(), Some("1234"));
    assert_eq!(project_field(line, "msgid").as_deref(), Some("audit"));
}

#[test]
fn nilvalue_header_field_is_none() {
    let line = b"<134>1 2026-06-01T12:00:00Z - - - - - bare msg";
    assert!(project_field(line, "host").is_none());
    assert!(project_field(line, "app").is_none());
    assert!(project_field(line, "procid").is_none());
    assert!(project_field(line, "msgid").is_none());
}

#[test]
fn projects_msg() {
    let line = b"<134>1 2026-06-01T12:00:00Z host app 1 - - hello world";
    assert_eq!(project_field(line, "msg").as_deref(), Some("hello world"));
}

#[test]
fn projects_level_name() {
    let line = b"<131>1 2026-06-01T12:00:00Z host app 1 - - boom";
    assert_eq!(project_field(line, "level").as_deref(), Some("error"));
}

#[test]
fn projects_structured_data_value() {
    // PRI=134, SD = [origin ip="10.0.0.1" port="443"]
    let line =
        b"<134>1 2026-06-01T12:00:00Z host app 1 - [origin ip=\"10.0.0.1\" port=\"443\"] hi";
    assert_eq!(
        project_field(line, "origin.ip").as_deref(),
        Some("10.0.0.1")
    );
    assert_eq!(
        project_field(line, "origin.port").as_deref(),
        Some("443")
    );
}

#[test]
fn structured_data_membership_probe_returns_empty_string() {
    let line = b"<134>1 2026-06-01T12:00:00Z host app 1 - [audit src=\"x\"] hi";
    // Bare `audit` exists → empty string (truthy for `audit=""` probes).
    assert_eq!(project_field(line, "audit").as_deref(), Some(""));
    // Missing block.
    assert!(project_field(line, "telemetry").is_none());
}

#[test]
fn structured_data_escape_inside_value() {
    let line = b"<134>1 2026-06-01T12:00:00Z host app 1 - [exo msg=\"with \\\"quote\\\"\"] hi";
    assert_eq!(
        project_field(line, "exo.msg").as_deref(),
        Some(r#"with "quote""#)
    );
}

#[test]
fn multiple_sd_blocks_first_match_wins() {
    let line = b"<134>1 2026-06-01T12:00:00Z host app 1 - [a x=\"1\"][b y=\"2\"] hi";
    assert_eq!(project_field(line, "a.x").as_deref(), Some("1"));
    assert_eq!(project_field(line, "b.y").as_deref(), Some("2"));
}

#[test]
fn empty_msg_is_supported() {
    let line = b"<134>1 2026-06-01T12:00:00Z host app 1 - -";
    let mut stats = ParseStats::default();
    let (ts, sev) = ts_and_level(line, &mut stats, None);
    assert!(ts > 0);
    assert_eq!(sev, severity::INFO);
    assert_eq!(project_field(line, "msg").as_deref(), Some(""));
}

#[test]
fn looks_like_syslog_matches_5424_frame() {
    assert!(looks_like_syslog(b"<134>1 2026-06-01T12:00:00Z host app 1 - - x"));
    assert!(looks_like_syslog(b"<0>1 - host app 1 - - x"));
}

#[test]
fn looks_like_syslog_rejects_non_frames() {
    assert!(!looks_like_syslog(b"{\"a\":1}"));
    assert!(!looks_like_syslog(b"foo=bar"));
    assert!(!looks_like_syslog(b"<no-pri-digits>"));
    assert!(!looks_like_syslog(b"<134> missing version"));
}
