use mgi_pulse::engine::parse::ParseStats;
use mgi_pulse::engine::parse_journalctl::{
    looks_like_journalctl, project_field_journal, ts_and_level,
};
use mgi_pulse::engine::record::severity;

#[test]
fn parses_realtime_timestamp_and_priority() {
    let mut stats = ParseStats::default();
    let line =
        br#"{"__REALTIME_TIMESTAMP":"1717235400123456","PRIORITY":"6","MESSAGE":"hello"}"#;
    let (ts, sev) = ts_and_level(line, &mut stats, None);
    assert_eq!(ts, 1717235400123456);
    assert_eq!(sev, severity::INFO);
    assert_eq!(stats.untimed, 0);
}

#[test]
fn priority_3_maps_to_error() {
    let mut stats = ParseStats::default();
    let line = br#"{"__REALTIME_TIMESTAMP":"1000","PRIORITY":"3","MESSAGE":"x"}"#;
    let (_, sev) = ts_and_level(line, &mut stats, None);
    assert_eq!(sev, severity::ERROR);
}

#[test]
fn missing_priority_uses_unknown() {
    let mut stats = ParseStats::default();
    let line = br#"{"__REALTIME_TIMESTAMP":"1000","MESSAGE":"x"}"#;
    let (_, sev) = ts_and_level(line, &mut stats, None);
    assert_eq!(sev, severity::UNKNOWN);
}

#[test]
fn projects_msg_and_level() {
    let line =
        br#"{"__REALTIME_TIMESTAMP":"1000","PRIORITY":"4","MESSAGE":"slow query"}"#;
    assert_eq!(
        project_field_journal(line, "msg").as_deref(),
        Some("slow query")
    );
    assert_eq!(
        project_field_journal(line, "level").as_deref(),
        Some("warn")
    );
}

#[test]
fn projects_host_alias() {
    let line =
        br#"{"__REALTIME_TIMESTAMP":"1000","PRIORITY":"6","_HOSTNAME":"host01","MESSAGE":"x"}"#;
    assert_eq!(
        project_field_journal(line, "host").as_deref(),
        Some("host01")
    );
    assert_eq!(
        project_field_journal(line, "_HOSTNAME").as_deref(),
        Some("host01")
    );
}

#[test]
fn looks_like_journalctl_matches() {
    assert!(looks_like_journalctl(
        br#"{"__REALTIME_TIMESTAMP":"1000","MESSAGE":"x"}"#
    ));
    assert!(looks_like_journalctl(
        br#"{"PRIORITY":"6","MESSAGE":"x"}"#
    ));
}

#[test]
fn looks_like_journalctl_rejects_other_json() {
    assert!(!looks_like_journalctl(br#"{"ts":"2026-06-01","msg":"x"}"#));
    assert!(!looks_like_journalctl(b"plain text"));
}
