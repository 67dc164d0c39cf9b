use mgi_pulse::io::json_array::{flatten_to_ndjson, looks_like_json_array};

#[test]
fn detects_array_of_objects() {
    assert!(looks_like_json_array(b"[{\"a\":1}]"));
    assert!(looks_like_json_array(b"  [\n  {\"a\":1}"));
    assert!(looks_like_json_array(b"[]"));
}

#[test]
fn rejects_ndjson_and_plain_text() {
    assert!(!looks_like_json_array(b"{\"a\":1}\n{\"b\":2}"));
    assert!(!looks_like_json_array(b"plain text"));
    // Array of strings is not a recognised array-of-objects shape
    // (we want logging records). The leading `[` followed by `"`
    // currently returns false, which is the conservative choice.
    assert!(!looks_like_json_array(b"[\"hello\"]"));
}

#[test]
fn flattens_array_to_ndjson_lines() {
    let input =
        b"[{\"ts\":\"2026-06-01T12:00:00Z\",\"level\":\"info\",\"msg\":\"a\"},\
          {\"ts\":\"2026-06-01T12:00:01Z\",\"level\":\"warn\",\"msg\":\"b\"}]";
    let out = flatten_to_ndjson(input).unwrap();
    // Two newline-terminated records.
    assert_eq!(out.iter().filter(|&&b| b == b'\n').count(), 2);
    // Each record is parseable JSON.
    for line in out.split(|&b| b == b'\n').filter(|l| !l.is_empty()) {
        let v: serde_json::Value = serde_json::from_slice(line).unwrap();
        assert!(v.is_object());
    }
}

#[test]
fn empty_array_produces_empty_output() {
    let out = flatten_to_ndjson(b"[]").unwrap();
    assert!(out.is_empty());
}

#[test]
fn malformed_array_returns_error() {
    let out = flatten_to_ndjson(b"[{,}]");
    assert!(out.is_err());
}

#[test]
fn non_array_returns_error() {
    let out = flatten_to_ndjson(b"{\"a\":1}");
    assert!(out.is_err());
}

#[test]
fn non_object_elements_dropped() {
    // String elements aren't log records; they get skipped, the
    // object element survives.
    let out = flatten_to_ndjson(b"[\"junk\", {\"a\":1}, 42]").unwrap();
    assert_eq!(out.iter().filter(|&&b| b == b'\n').count(), 1);
}
