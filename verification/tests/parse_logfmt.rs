use mgi_pulse::engine::parse::{FieldNames, ParseStats};
use mgi_pulse::engine::parse_logfmt::{project_field, ts_and_level, LogfmtPairs};
use mgi_pulse::engine::record::severity;
use mgi_pulse::engine::record::TS_UNTIMED;

fn collect_pairs(line: &[u8]) -> Vec<(String, String)> {
    let mut pairs = LogfmtPairs::new(line);
    let mut out = Vec::new();
    while let Some((k, v)) = pairs.next() {
        out.push((
            String::from_utf8_lossy(k).into_owned(),
            String::from_utf8_lossy(v.as_bytes()).into_owned(),
        ));
    }
    out
}

#[test]
fn bare_pairs() {
    let pairs = collect_pairs(b"level=info logger=app");
    assert_eq!(
        pairs,
        vec![
            ("level".to_string(), "info".to_string()),
            ("logger".to_string(), "app".to_string()),
        ]
    );
}

#[test]
fn quoted_values_keep_spaces() {
    let pairs = collect_pairs(br#"level=info msg="hello world""#);
    assert_eq!(
        pairs,
        vec![
            ("level".to_string(), "info".to_string()),
            ("msg".to_string(), "hello world".to_string()),
        ]
    );
}

#[test]
fn quoted_values_unescape() {
    let pairs = collect_pairs(br#"msg="hello \"world\"""#);
    assert_eq!(
        pairs,
        vec![("msg".to_string(), r#"hello "world""#.to_string())]
    );
    let pairs = collect_pairs(br#"path="C:\\Users\\foo""#);
    assert_eq!(
        pairs,
        vec![("path".to_string(), r"C:\Users\foo".to_string())]
    );
}

#[test]
fn extra_whitespace_is_tolerated() {
    let pairs = collect_pairs(b"  level=info   logger=app  ");
    assert_eq!(
        pairs,
        vec![
            ("level".to_string(), "info".to_string()),
            ("logger".to_string(), "app".to_string()),
        ]
    );
}

#[test]
fn bare_key_without_value_yields_empty() {
    let pairs = collect_pairs(b"warn level=info");
    assert_eq!(
        pairs,
        vec![
            ("warn".to_string(), "".to_string()),
            ("level".to_string(), "info".to_string()),
        ]
    );
}

#[test]
fn ts_and_level_picks_known_keys() {
    let mut stats = ParseStats::default();
    let line = br#"ts=2026-06-01T12:00:00Z level=error msg="boom""#;
    let (ts, sev) = ts_and_level(line, &mut stats, None);
    assert!(ts > 0);
    assert_eq!(sev, severity::ERROR);
    assert_eq!(stats.untimed, 0);
}

#[test]
fn ts_and_level_honors_override_fields() {
    let mut stats = ParseStats::default();
    let fields = FieldNames {
        ts: "time".to_string(),
        level: "severity".to_string(),
    };
    let line = b"time=2026-06-01T12:00:00Z severity=warn msg=hello";
    let (ts, sev) = ts_and_level(line, &mut stats, Some(&fields));
    assert!(ts > 0);
    assert_eq!(sev, severity::WARN);
}

#[test]
fn ts_and_level_marks_untimed_when_ts_missing() {
    let mut stats = ParseStats::default();
    let line = b"level=info msg=hello";
    let (ts, sev) = ts_and_level(line, &mut stats, None);
    assert_eq!(ts, TS_UNTIMED);
    assert_eq!(sev, severity::INFO);
    assert_eq!(stats.untimed, 1);
    assert_eq!(stats.ts_parse_errors, 0);
}

#[test]
fn ts_and_level_handles_garbage_line() {
    let mut stats = ParseStats::default();
    let line = b"not a logfmt line at all";
    let (ts, sev) = ts_and_level(line, &mut stats, None);
    // First "not" parses as bare key with empty value; that's "any pair",
    // so we don't flag json_parse_errors here. Treat as untimed/unknown.
    assert_eq!(ts, TS_UNTIMED);
    assert_eq!(sev, severity::UNKNOWN);
    assert_eq!(stats.untimed, 1);
}

#[test]
fn project_field_finds_value() {
    let line = br#"ts=2026 level=info msg="hello world" user=admin"#;
    assert_eq!(project_field(line, "user"), Some("admin".to_string()));
    assert_eq!(project_field(line, "msg"), Some("hello world".to_string()));
    assert_eq!(project_field(line, "missing"), None);
}
