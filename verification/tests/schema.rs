use std::collections::HashMap;

use mgi_pulse::schema::{project_field, unquote_if_string, SchemaBuilder};

#[test]
fn scan_counts_presence_per_field() {
    let mut sb = SchemaBuilder::new();
    sb.scan(br#"{"ts":"x","level":"info","msg":"hi"}"#);
    sb.scan(br#"{"ts":"y","level":"warn","msg":"x","extra":1}"#);
    let s = sb.lock();
    let mut by_name: HashMap<&str, u64> = HashMap::new();
    for (n, st) in &s.ordered_fields {
        by_name.insert(n.as_str(), st.presence);
    }
    assert_eq!(by_name.get("ts"), Some(&2));
    assert_eq!(by_name.get("level"), Some(&2));
    assert_eq!(by_name.get("msg"), Some(&2));
    assert_eq!(by_name.get("extra"), Some(&1));
}

#[test]
fn auto_columns_drops_ts_and_level() {
    let mut sb = SchemaBuilder::new();
    for _ in 0..5 {
        sb.scan(br#"{"ts":"x","level":"info","logger":"a","msg":"m"}"#);
    }
    let s = sb.lock();
    let cols = s.auto_columns(10);
    assert!(!cols.iter().any(|c| c == "ts" || c == "level"));
    // logger and msg should be there, both seen 5 times.
    assert!(cols.iter().any(|c| c == "logger"));
    assert!(cols.iter().any(|c| c == "msg"));
}

#[test]
fn non_json_silently_ignored() {
    let mut sb = SchemaBuilder::new();
    sb.scan(b"not json");
    sb.scan(br#"{"a":1}"#);
    let s = sb.lock();
    // Two records scanned (counter increments even on non-JSON), but
    // only one contributed a field.
    assert_eq!(s.records_scanned, 2);
    assert_eq!(s.ordered_fields.len(), 1);
}

#[test]
fn project_field_returns_raw_value_text() {
    let line = br#"{"ts":"2026","level":"info","logger":"aurora.tts","payload":{"n":5}}"#;
    assert_eq!(project_field(line, "logger"), Some("\"aurora.tts\""));
    assert_eq!(project_field(line, "payload"), Some("{\"n\":5}"));
    assert_eq!(project_field(line, "missing"), None);
}

#[test]
fn unquote_strips_only_string_literals() {
    assert_eq!(unquote_if_string("\"hello\""), "hello");
    assert_eq!(unquote_if_string("42"), "42");
    assert_eq!(unquote_if_string("{\"x\":1}"), "{\"x\":1}");
    assert_eq!(unquote_if_string("\""), "\"");
}

#[test]
fn locked_schema_blocks_further_scan() {
    let mut sb = SchemaBuilder::new();
    sb.scan(br#"{"a":1}"#);
    sb.locked = true;
    sb.scan(br#"{"b":2}"#);
    let s = sb.lock();
    let cols = s.auto_columns(10);
    assert!(cols.iter().any(|c| c == "a"));
    assert!(!cols.iter().any(|c| c == "b"));
}
