use mgi_pulse::engine::dsl::compile;
use mgi_pulse::engine::format::{FieldCache, LogFormat};
use mgi_pulse::engine::predicate::Predicate;
use mgi_pulse::engine::record::{severity, RawRecord, RecordBytes};

fn compiles(input: &str) -> bool {
    compile(input).is_ok()
}

#[test]
fn empty_query_is_rejected() {
    assert!(compile("").is_err());
}

#[test]
fn single_field_equals() {
    assert!(compiles("level=error"));
}

#[test]
fn quoted_value() {
    assert!(compiles(r#"msg="hello world""#));
}

#[test]
fn regex_value() {
    assert!(compiles("msg~/db timeout/"));
}

#[test]
fn and_composition() {
    assert!(compiles("level=error AND msg~/boom/"));
    assert!(compiles("logger=app AND level=error AND msg~/timeout/"));
}

#[test]
fn comparison_on_ts() {
    assert!(compiles("ts>2026-06-01"));
    assert!(compiles("ts>=2026-06-01T12:00 AND ts<2026-06-01T13:00"));
}

#[test]
fn comparison_on_non_ts_is_rejected() {
    let err = compile("level>error").err().unwrap();
    assert!(err.contains("only supported on `ts`"));
}

#[test]
fn invalid_regex_is_rejected() {
    // Unbalanced `[` is invalid.
    let err = compile("msg~/[unbalanced/").err().unwrap();
    assert!(err.contains("regex error"));
}

#[test]
fn time_prefix_is_padded() {
    // ts>2026 should pad to 2026-01-01T00:00:00Z and parse.
    assert!(compiles("ts>2026"));
    // ts>not-a-date should error.
    let err = compile("ts>not-a-date").err().unwrap();
    assert!(err.contains("parse timestamp"));
}

// --- Boolean composition (OR / NOT / parens) ---


fn rec_with_severity(sev: u8) -> RawRecord {
    RawRecord {
        source_id: 0,
        line_id: 0,
        ts_micros: 0,
        severity: sev,
        bytes: RecordBytes::Owned(Vec::new()),
    }
}

fn accepts(query: &str, line: &[u8]) -> bool {
    let p = compile(query).expect("query should compile");
    let r = rec_with_severity(severity::INFO);
    let mut cache = FieldCache::new(LogFormat::Ndjson, line);
    p.matches(&r, &mut cache)
}

#[test]
fn or_composes() {
    assert!(compiles("level=error OR level=warn"));
    let err_line = br#"{"level":"error","msg":"x"}"#;
    let warn_line = br#"{"level":"warn","msg":"x"}"#;
    let info_line = br#"{"level":"info","msg":"x"}"#;
    assert!(accepts("level=error OR level=warn", err_line));
    assert!(accepts("level=error OR level=warn", warn_line));
    assert!(!accepts("level=error OR level=warn", info_line));
}

#[test]
fn not_negates_clause() {
    assert!(compiles("NOT level=error"));
    let err_line = br#"{"level":"error","msg":"x"}"#;
    let info_line = br#"{"level":"info","msg":"x"}"#;
    assert!(!accepts("NOT level=error", err_line));
    assert!(accepts("NOT level=error", info_line));
}

#[test]
fn parens_group() {
    assert!(compiles("(level=error OR level=warn) AND msg~/boom/"));
    let line_err_boom = br#"{"level":"error","msg":"boom"}"#;
    let line_warn_boom = br#"{"level":"warn","msg":"boom"}"#;
    let line_info_boom = br#"{"level":"info","msg":"boom"}"#;
    let line_err_quiet = br#"{"level":"error","msg":"quiet"}"#;
    let q = "(level=error OR level=warn) AND msg~/boom/";
    assert!(accepts(q, line_err_boom));
    assert!(accepts(q, line_warn_boom));
    assert!(!accepts(q, line_info_boom));
    assert!(!accepts(q, line_err_quiet));
}

#[test]
fn precedence_not_tighter_than_and() {
    // `NOT a AND b` parses as `(NOT a) AND b`, not `NOT (a AND b)`.
    let line = br#"{"level":"info","logger":"app","msg":"x"}"#;
    // info AND logger=app → false (NOT level=error) AND logger=app → true
    assert!(accepts("NOT level=error AND logger=app", line));
}

#[test]
fn precedence_and_tighter_than_or() {
    // `a OR b AND c` parses as `a OR (b AND c)`.
    // line is level=info logger=app → first arm fails (level!=error),
    // second arm: level=info AND logger=app → succeeds.
    let line = br#"{"level":"info","logger":"app"}"#;
    assert!(accepts(
        "level=error OR level=info AND logger=app",
        line
    ));
    // logger mismatch breaks the AND arm; OR arm also fails.
    let line2 = br#"{"level":"info","logger":"other"}"#;
    assert!(!accepts(
        "level=error OR level=info AND logger=app",
        line2
    ));
}

#[test]
fn parens_override_default_precedence() {
    // (a OR b) AND c — distinct from a OR (b AND c).
    let line = br#"{"level":"warn","logger":"app"}"#;
    assert!(accepts(
        "(level=error OR level=warn) AND logger=app",
        line
    ));
    // line is logger=other → AND arm fails on both sides.
    let line2 = br#"{"level":"warn","logger":"other"}"#;
    assert!(!accepts(
        "(level=error OR level=warn) AND logger=app",
        line2
    ));
}

#[test]
fn unbalanced_parens_rejected() {
    let err = compile("(level=error").err().unwrap();
    assert!(err.contains("expected `)`"));
}

#[test]
fn dangling_operator_rejected() {
    let err = compile("level=error AND").err().unwrap();
    assert!(err.contains("expected"));
}

#[test]
fn double_not_collapses_logically() {
    // NOT NOT a should match the same things as a.
    let line = br#"{"level":"error"}"#;
    assert_eq!(
        accepts("level=error", line),
        accepts("NOT NOT level=error", line)
    );
}

#[test]
fn lowercase_and_is_not_an_operator() {
    // `and` lowercase is a field name, not the AND keyword. This
    // protects fields like `and_count` and matches the explicit
    // case-sensitivity in the grammar doc.
    let err = compile("level=error and level=warn").err().unwrap();
    // It tries to read `and` as a field, then expects an operator
    // after `level=warn`'s second clause — either way it errors.
    assert!(!err.is_empty());
}

#[test]
fn trailing_garbage_rejected() {
    let err = compile("level=error )").err().unwrap();
    assert!(err.contains("trailing"));
}

#[test]
fn other_white_space_shows_keywords_and_is_not_stepped_over() {
    let error = br#"{"level":"error"}"#;
    let info = br#"{"level":"info"}"#;
    // An em space takes up as many bytes as `NOT`, which is then read again.
    assert!(accepts("\u{2003}NOT level=error", error));
    assert!(!accepts("\u{2003}NOT level=error", info));
    // A no-break space takes up two.
    assert!(!accepts("\u{a0}NOT=x", br#"{"OT":"x"}"#));
    assert!(accepts("\u{a0}NOT=x", br#"{"OT":"y"}"#));
    assert_eq!(
        compile("\u{a0}NOT level=error").err().as_deref(),
        Some("expected operator at `level=error`")
    );
    assert_eq!(
        compile("a=\"b\"\u{2003}AND c=d").err().as_deref(),
        Some("unexpected `AND` — expected a field name")
    );
    assert_eq!(
        compile("a=\"b\"\u{a0}OR c=d").err().as_deref(),
        Some("unexpected `OR` — expected a field name")
    );
    assert_eq!(
        compile("(\u{3000}AND a=b)").err().as_deref(),
        Some("unexpected `AND` — expected a field name")
    );
    assert_eq!(
        compile("\u{2003}level=error").err().as_deref(),
        Some("expected field name at `\u{2003}level=error`")
    );
    assert_eq!(
        compile("a=\"b\"\u{2003}").err().as_deref(),
        Some("unexpected trailing input: `\u{2003}`")
    );
    // A step that would end inside a character is none.
    assert_eq!(
        compile("a=\"b\"\u{2003}OR c=d").err().as_deref(),
        Some("unexpected trailing input: `\u{2003}OR c=d`")
    );
}
