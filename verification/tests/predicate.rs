use mgi_pulse::engine::format::{FieldCache, LogFormat};
use mgi_pulse::engine::predicate::{
    AndPredicate, AnyPredicate, FieldEqualsPredicate, Predicate, RegexBytesPredicate,
    SeverityInPredicate,
};
use mgi_pulse::engine::record::{severity, RawRecord, RecordBytes};

fn fake_rec() -> RawRecord {
    RawRecord {
        source_id: 0,
        line_id: 0,
        ts_micros: 0,
        severity: severity::INFO,
        bytes: RecordBytes::Owned(Vec::new()),
    }
}

fn check<P: Predicate>(p: &P, line: &[u8]) -> bool {
    let r = fake_rec();
    let mut cache = FieldCache::new(LogFormat::Ndjson, line);
    p.matches(&r, &mut cache)
}

fn check_with<P: Predicate>(p: &P, rec: &RawRecord, line: &[u8]) -> bool {
    let mut cache = FieldCache::new(LogFormat::Ndjson, line);
    p.matches(rec, &mut cache)
}

#[test]
fn regex_matches_substring() {
    let p = RegexBytesPredicate::new("erro").unwrap();
    assert!(check(&p, br#"{"level":"error","msg":"boom"}"#));
    assert!(!check(&p, br#"{"level":"info","msg":"ok"}"#));
}

#[test]
fn regex_handles_non_utf8() {
    let p = RegexBytesPredicate::new(r"(?-u)\xff{3}").unwrap();
    assert!(check(&p, b"\xff\xff\xff payload"));
    assert!(!check(&p, b"\xff payload"));
}

#[test]
fn field_equals_unquotes_string_values() {
    let p = FieldEqualsPredicate::new("level".to_string(), "error".to_string());
    assert!(check(&p, br#"{"level":"error","msg":"x"}"#));
    assert!(!check(&p, br#"{"level":"info","msg":"x"}"#));
    assert!(!check(&p, br#"{"msg":"no level here"}"#));
}

#[test]
fn field_equals_works_on_numeric() {
    let p = FieldEqualsPredicate::new("status".to_string(), "200".to_string());
    assert!(check(&p, br#"{"status":200}"#));
    assert!(!check(&p, br#"{"status":404}"#));
}

#[test]
fn and_predicate_requires_all_to_match() {
    let mut and = AndPredicate::new();
    and.push(AnyPredicate::FieldEquals(FieldEqualsPredicate::new("level".to_string(), "error".to_string())));
    and.push(AnyPredicate::Regex(RegexBytesPredicate::new("boom").unwrap()));
    assert!(check(&and, br#"{"level":"error","msg":"boom"}"#));
    assert!(!check(&and, br#"{"level":"error","msg":"ok"}"#));
    assert!(!check(&and, br#"{"level":"info","msg":"boom"}"#));
}

#[test]
fn empty_and_matches_everything() {
    let and = AndPredicate::new();
    assert!(check(&and, b"anything"));
}

#[test]
fn severity_in_set_membership() {
    let p = SeverityInPredicate::new(&[severity::ERROR, severity::FATAL]);
    let mut r = fake_rec();
    r.severity = severity::ERROR;
    assert!(check_with(&p, &r, b""));
    r.severity = severity::FATAL;
    assert!(check_with(&p, &r, b""));
    r.severity = severity::WARN;
    assert!(!check_with(&p, &r, b""));
    r.severity = severity::INFO;
    assert!(!check_with(&p, &r, b""));
    r.severity = severity::TRACE;
    assert!(!check_with(&p, &r, b""));
}

#[test]
fn severity_in_single_level() {
    let p = SeverityInPredicate::new(&[severity::WARN]);
    let mut r = fake_rec();
    r.severity = severity::WARN;
    assert!(check_with(&p, &r, b""));
    r.severity = severity::ERROR;
    assert!(!check_with(&p, &r, b""));
    r.severity = severity::INFO;
    assert!(!check_with(&p, &r, b""));
}

#[test]
fn and_predicate_shares_field_cache_across_predicates() {
    // Two field-equals on the same key should hit the cache the
    // second time. The test runs without instrumentation; the
    // intent is that this works at all under the new contract.
    let mut and = AndPredicate::new();
    and.push(AnyPredicate::FieldEquals(FieldEqualsPredicate::new("level".to_string(), "error".to_string())));
    and.push(AnyPredicate::FieldEquals(FieldEqualsPredicate::new("level".to_string(), "error".to_string())));
    assert!(check(&and, br#"{"level":"error"}"#));
}
