use mgi_pulse::engine::parse::{FieldNames, ParseStats};
use mgi_pulse::engine::parse_edn::{project_field, ts_and_level, EdnPairs, EdnValue};
use mgi_pulse::engine::record::severity;
use mgi_pulse::engine::record::TS_UNTIMED;

fn collect_pairs(line: &[u8]) -> Vec<(String, String)> {
    let mut pairs = EdnPairs::new(line);
    let mut out = Vec::new();
    while let Some((k, v)) = pairs.next() {
        let kk = match &k {
            EdnValue::Keyword(b) => format!(":{}", String::from_utf8_lossy(b)),
            EdnValue::String(b) => format!("\"{}\"", String::from_utf8_lossy(b)),
            _ => "?".to_string(),
        };
        let vv = String::from_utf8_lossy(v.as_bytes()).into_owned();
        out.push((kk, vv));
    }
    out
}

#[test]
fn parses_simple_map() {
    let pairs = collect_pairs(br#"{:level :info :msg "hello"}"#);
    assert_eq!(
        pairs,
        vec![
            (":level".to_string(), "info".to_string()),
            (":msg".to_string(), "hello".to_string()),
        ]
    );
}

#[test]
fn keyword_namespaces_are_stripped_for_match() {
    // :log/ts and :ts both project as "ts".
    assert_eq!(
        project_field(br#"{:log/ts "2026" :level :info}"#, "ts"),
        Some("2026".to_string())
    );
}

#[test]
fn quoted_string_keys_work() {
    assert_eq!(
        project_field(br#"{"ts" "2026" "level" "error"}"#, "ts"),
        Some("2026".to_string())
    );
}

#[test]
fn ts_and_level_extracts_ts() {
    let mut stats = ParseStats::default();
    let line = br#"{:ts "2026-06-01T12:00:00Z" :level :error :msg "boom"}"#;
    let (ts, sev) = ts_and_level(line, &mut stats, None);
    assert!(ts > 0);
    assert_eq!(sev, severity::ERROR);
}

#[test]
fn tagged_inst_is_unwrapped() {
    let mut stats = ParseStats::default();
    let line = br#"{:ts #inst "2026-06-01T12:00:00Z" :level :warn}"#;
    let (ts, sev) = ts_and_level(line, &mut stats, None);
    assert!(ts > 0);
    assert_eq!(sev, severity::WARN);
}

#[test]
fn nested_maps_are_skipped() {
    let mut stats = ParseStats::default();
    let line =
        br#"{:ts "2026-06-01T12:00:00Z" :context {:user "alice" :ip "1.2.3.4"} :level :info}"#;
    let (ts, sev) = ts_and_level(line, &mut stats, None);
    assert!(ts > 0);
    assert_eq!(sev, severity::INFO);
}

#[test]
fn missing_ts_is_marked_untimed() {
    let mut stats = ParseStats::default();
    let line = br#"{:level :info :msg "no ts"}"#;
    let (ts, sev) = ts_and_level(line, &mut stats, None);
    assert_eq!(ts, TS_UNTIMED);
    assert_eq!(sev, severity::INFO);
    assert_eq!(stats.untimed, 1);
}

#[test]
fn non_edn_line_marks_json_parse_error() {
    let mut stats = ParseStats::default();
    let line = b"this is not edn at all";
    let (ts, sev) = ts_and_level(line, &mut stats, None);
    assert_eq!(ts, TS_UNTIMED);
    assert_eq!(sev, severity::UNKNOWN);
    assert_eq!(stats.json_parse_errors, 1);
}

#[test]
fn project_arbitrary_field() {
    let line = br#"{:ts "x" :level :info :user "alice" :payload {:n 5}}"#;
    assert_eq!(project_field(line, "user"), Some("alice".to_string()));
    assert_eq!(project_field(line, "missing"), None);
    // Nested map value can't be projected as a string.
    assert_eq!(project_field(line, "payload"), None);
}

#[test]
fn override_field_names_honored() {
    let mut stats = ParseStats::default();
    let fields = FieldNames {
        ts: "time".to_string(),
        level: "severity".to_string(),
    };
    let line = br#"{:time "2026-06-01T12:00:00Z" :severity :warn}"#;
    let (ts, sev) = ts_and_level(line, &mut stats, Some(&fields));
    assert!(ts > 0);
    assert_eq!(sev, severity::WARN);
}
