use mgi_pulse::engine::dsl::compile;
use mgi_pulse::engine::format::{FieldCache, LogFormat};
use mgi_pulse::engine::indexer::drain;
use mgi_pulse::engine::parse_regex::compile_pattern;
use mgi_pulse::engine::predicate::FieldEqualsPredicate;
use mgi_pulse::engine::query::scan;
use mgi_pulse::engine::record::{severity, TS_UNTIMED};
use mgi_pulse::engine::stats::Stats;
use mgi_pulse::engine::Engine;
use mgi_pulse::io::file::FileProducer;

const BODY: &[u8] = b"2026-06-01 12:00:00 ERROR disk full\n\
                      2026-06-01 12:00 WARN disk slow\n\
                      99-06-01 INFO short\n\
                      no match at all\n";

const PATTERN: &str = r"^(?P<ts>[\d:\- ]+?)\s(?P<level>[A-Z]+)\s(?P<unit>\w+)";

fn patterned() -> Engine<'static> {
    let mut engine = Engine::new();
    let mut producer = FileProducer::new(BODY, 0).with_format(LogFormat::Regex);
    engine.mmaps.push(producer.mmap());
    engine.source_formats.push(LogFormat::Regex);
    drain(&mut producer, &mut engine);
    engine.indexes.parse_stats.fold(producer.stats());
    engine
}

#[test]
fn records_wait_for_their_pattern() {
    let engine = patterned();
    assert_eq!(engine.indexes.parse_stats.untimed, 4);
    assert_eq!(engine.indexes.time.ts, vec![TS_UNTIMED; 4]);
    assert!(engine.regex_of(0).is_none());
    assert!(engine.cache_of(0, BODY).get("unit").is_none());
}

#[test]
fn a_bound_pattern_times_and_levels_the_records() {
    let mut engine = patterned();
    engine.bind_pattern(0, compile_pattern(PATTERN).unwrap());
    assert_eq!(
        engine.indexes.time.ts,
        vec![
            1_780_315_200_000_000,
            1_780_315_200_000_000,
            TS_UNTIMED,
            TS_UNTIMED
        ]
    );
    assert_eq!(
        engine.indexes.severity.levels,
        vec![
            severity::ERROR,
            severity::WARN,
            severity::INFO,
            severity::UNKNOWN
        ]
    );
    let ps = engine.indexes.parse_stats;
    assert_eq!(
        (ps.untimed, ps.ts_parse_errors, ps.json_parse_errors),
        (2, 1, 1)
    );
}

#[test]
fn captures_are_fields_for_predicates() {
    let mut engine = patterned();
    engine.bind_pattern(0, compile_pattern(PATTERN).unwrap());
    let disk = FieldEqualsPredicate::new("unit".to_string(), "disk".to_string());
    assert_eq!(scan(&engine, &disk), vec![0, 1]);
    let query = compile("unit=disk AND level=warn").unwrap();
    assert_eq!(scan(&engine, &query), vec![1]);
    // The summary goes by the format alone, which names no captures.
    assert!(Stats::build(&engine, &[0, 1, 2, 3], "unit", 8).top_values.is_empty());
}

#[test]
fn a_pattern_binds_to_its_source_alone() {
    let mut engine = patterned();
    engine.source_formats.push(LogFormat::Regex);
    engine.bind_pattern(1, compile_pattern(PATTERN).unwrap());
    assert_eq!(engine.indexes.time.ts, vec![TS_UNTIMED; 4]);
    assert!(engine.regex_of(0).is_none());
    assert!(engine.regex_of(1).is_some());
}

#[test]
fn a_pattern_that_does_not_compile_says_so() {
    let e = compile_pattern("(").unwrap_err();
    assert!(e.starts_with("regex compile error: "));
    assert!(e.len() > "regex compile error: ".len());
}

#[test]
fn captured_headers_name_the_fields() {
    let body: &[u8] = b"ts,level,user\n2026-06-01T12:00:00Z,error,ada\n2026-06-01T12:00:01Z,info,bob\n";
    let mut engine = Engine::new();
    let mut producer = FileProducer::new(body, 0).with_format(LogFormat::Csv);
    engine.mmaps.push(producer.mmap());
    engine.source_formats.push(LogFormat::Csv);
    drain(&mut producer, &mut engine);
    engine.indexes.parse_stats.fold(producer.stats());
    let ada = FieldEqualsPredicate::new("user".to_string(), "ada".to_string());
    assert!(scan(&engine, &ada).is_empty());
    engine.capture_csv_headers();
    assert_eq!(scan(&engine, &ada), vec![1]);
    assert_eq!(engine.indexes.severity.levels[2], severity::INFO);
    assert_eq!(engine.indexes.parse_stats.untimed, 1);
}

#[test]
fn a_cache_learns_headers_and_patterns() {
    let headers = vec!["a".to_string(), "b".to_string()];
    let mut plain = FieldCache::new(LogFormat::Csv, b"1,2");
    assert_eq!(plain.get("b"), None);
    assert_eq!(plain.get("_2"), Some("2"));
    let mut named = FieldCache::new(LogFormat::Csv, b"1,2").with_headers(&headers);
    assert_eq!(named.get("b"), Some("2"));
    let re = compile_pattern(r"(?P<first>\w+)").unwrap();
    let mut caught = FieldCache::new(LogFormat::Regex, b"one two").with_regex(&re);
    assert_eq!(caught.get("first"), Some("one"));
    assert_eq!(caught.get("second"), None);
    caught.reset(b"three");
    assert_eq!(caught.get("first"), Some("three"));
}
