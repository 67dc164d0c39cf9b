use mgi_pulse::bookmarks_store::{Sidecar, MAX_SOURCES};
use mgi_pulse::engine::dsl::compile;
use mgi_pulse::engine::format::LogFormat;
use mgi_pulse::engine::indexer::drain;
use mgi_pulse::engine::predicate::{
    AndPredicate, AnyPredicate, FieldRegexPredicate, NotPredicate, OrPredicate,
    RegexBytesPredicate, SeverityInPredicate, TimeRangePredicate,
};
use mgi_pulse::engine::query::scan;
use mgi_pulse::engine::record::{severity, RawRecord, RecordBytes, TS_UNTIMED};
use mgi_pulse::engine::Engine;
use mgi_pulse::io::file::FileProducer;
use mgi_pulse::io::json_array::{flatten_to_ndjson, write_objects, Element};
use mgi_pulse::io::merge::MergeProducer;
use mgi_pulse::io::multiline::merge_into;
use mgi_pulse::io::RecordProducer;
use mgi_pulse::order::lex_before;
use mgi_pulse::panes::table::snap_cursor;
use mgi_pulse::string_map::StringMap;

const BODY: &[u8] = b"{\"ts\":\"1970-01-01T00:00:01Z\",\"level\":\"error\",\"msg\":\"a\"}\n\
\n\
{\"ts\":\"1970-01-01T00:00:02Z\",\"level\":\"warn\",\"msg\":\"b\"}\n\
{\"level\":\"info\",\"msg\":\"c\"}";

fn read() -> Engine<'static> {
    let mut engine = Engine::new();
    let mut producer = FileProducer::new(BODY, 0);
    engine.mmaps.push(producer.mmap());
    engine.source_formats.push(LogFormat::Ndjson);
    drain(&mut producer, &mut engine);
    engine
}

#[test]
fn an_indexed_file_reads_back_line_by_line() {
    let engine = read();
    let lines: Vec<&[u8]> = BODY
        .split(|&b| b == b'\n')
        .filter(|l| !l.is_empty())
        .collect();
    assert_eq!(engine.indexes.len(), lines.len());
    for (i, line) in lines.iter().enumerate() {
        assert_eq!(engine.line_bytes(i as u64), *line);
    }
    assert_eq!(
        engine.indexes.time.ts,
        vec![1_000_000, 2_000_000, TS_UNTIMED]
    );
    assert!(engine.line_bytes(99).is_empty());
}

fn times(p: TimeRangePredicate) -> Vec<u64> {
    scan(&read(), &p)
}

#[test]
fn time_ranges_leave_untimed_records_out() {
    assert_eq!(times(TimeRangePredicate::greater_than(1_000_000)), vec![1]);
    assert_eq!(times(TimeRangePredicate::at_or_after(1_000_000)), vec![0, 1]);
    assert_eq!(times(TimeRangePredicate::less_than(2_000_000)), vec![0]);
    assert_eq!(times(TimeRangePredicate::at_or_before(2_000_000)), vec![0, 1]);
    assert_eq!(times(TimeRangePredicate::at_or_after(i64::MIN)), vec![0, 1]);
}

fn warn() -> AnyPredicate {
    AnyPredicate::SeverityIn(SeverityInPredicate::new(&[severity::WARN]))
}

#[test]
fn negation_and_composition_follow_logic() {
    let engine = read();
    let not = NotPredicate::new(warn());
    assert_eq!(scan(&engine, &not), vec![0, 2]);
    let twice = NotPredicate::new(AnyPredicate::Not(NotPredicate::new(warn())));
    assert_eq!(scan(&engine, &twice), vec![1]);
    assert_eq!(scan(&engine, &AndPredicate::new()), vec![0, 1, 2]);
    assert!(scan(&engine, &OrPredicate::new()).is_empty());
    let mut or = OrPredicate::new();
    or.push(warn());
    or.push(AnyPredicate::Regex(RegexBytesPredicate::new("\"c\"").unwrap()));
    assert_eq!(or.len(), 2);
    assert_eq!(scan(&engine, &or), vec![1, 2]);
    let mut and = AndPredicate::new();
    and.push(AnyPredicate::Or(or));
    and.push(warn());
    assert_eq!(scan(&engine, &and), vec![1]);
}

#[test]
fn field_patterns_see_the_unquoted_value() {
    let engine = read();
    let p = FieldRegexPredicate::new("msg".to_string(), "^[ab]$").unwrap();
    assert_eq!(scan(&engine, &p), vec![0, 1]);
    assert!(FieldRegexPredicate::new("msg".to_string(), "(").is_err());
    assert!(RegexBytesPredicate::new("(").is_err());
}

#[test]
fn queries_scan_like_their_parts() {
    let engine = read();
    let q = compile("ts>=1970-01-01T00:00:02 OR msg~/^c$/").unwrap();
    assert_eq!(scan(&engine, &q), vec![1, 2]);
    let q = compile("NOT (level=error OR level=warn)").unwrap();
    assert_eq!(scan(&engine, &q), vec![2]);
}

#[test]
fn severity_names_go_both_ways() {
    for rank in 1..=6u8 {
        let name = severity::name(rank);
        assert_eq!(severity::from_bytes(name.as_bytes()), rank);
        assert_eq!(severity::from_bytes(name.to_uppercase().as_bytes()), rank);
    }
    assert_eq!(severity::from_bytes(b"loud"), severity::UNKNOWN);
}

#[test]
fn a_flattened_array_has_one_line_per_object() {
    let out = flatten_to_ndjson(b"[{\"a\":\"x\\ny\"},3,{\"b\":[1, 2]},\n{}]").unwrap();
    let lines: Vec<&[u8]> = out.split(|&b| b == b'\n').filter(|l| !l.is_empty()).collect();
    assert_eq!(
        lines,
        vec![
            b"{\"a\":\"x\\ny\"}".as_slice(),
            b"{\"b\":[1,2]}".as_slice(),
            b"{}".as_slice()
        ]
    );
    assert_eq!(
        flatten_to_ndjson(b"{}"),
        Err("top-level value is not an array".to_string())
    );
    assert!(flatten_to_ndjson(b"[{").unwrap_err().starts_with("JSON array parse error: "));
}

#[test]
fn an_object_that_cannot_be_written_stops_the_flattening() {
    let elements = vec![
        Element {
            is_object: true,
            text: Ok(b"{}".to_vec()),
        },
        Element {
            is_object: false,
            text: Err("skipped".to_string()),
        },
        Element {
            is_object: true,
            text: Err("broken".to_string()),
        },
    ];
    assert_eq!(
        write_objects(&elements),
        Err("serialise array element: broken".to_string())
    );
}

fn owned(ts: i64, text: &str) -> RawRecord {
    RawRecord {
        source_id: 0,
        line_id: 0,
        ts_micros: ts,
        severity: 0,
        bytes: RecordBytes::Owned(text.as_bytes().to_vec()),
    }
}

struct Few(Vec<RawRecord>);

impl RecordProducer for Few {
    fn next(&mut self) -> Option<RawRecord> {
        if self.0.is_empty() {
            None
        } else {
            Some(self.0.remove(0))
        }
    }

    fn is_live(&self) -> bool {
        false
    }
}

#[test]
fn a_merge_keeps_every_record_in_time_order() {
    let a = Few(vec![owned(1, "a"), owned(5, "b")]);
    let b = Few(vec![owned(2, "c"), owned(5, "d"), owned(9, "e")]);
    let mut merge = MergeProducer::new(vec![a, b]);
    let mut seen = Vec::new();
    while let Some(rec) = merge.next() {
        seen.push((rec.line_id, rec.ts_micros));
    }
    assert_eq!(seen, vec![(0, 1), (1, 2), (2, 5), (3, 5), (4, 9)]);
}

#[test]
fn adjacent_spans_join_into_one() {
    let span = |offset: u64, len: u32| RawRecord {
        source_id: 0,
        line_id: 0,
        ts_micros: 7,
        severity: 0,
        bytes: RecordBytes::FileRef {
            source_id: 0,
            offset,
            len,
        },
    };
    let mut head = span(10, 4);
    merge_into(&mut head, span(15, 3));
    match head.bytes {
        RecordBytes::FileRef { offset, len, .. } => assert_eq!((offset, len), (10, 8)),
        _ => panic!("expected a span"),
    }
    let mut head = owned(7, "one");
    merge_into(&mut head, owned(8, "two"));
    assert_eq!(head.ts_micros, 7);
    match head.bytes {
        RecordBytes::Owned(b) => assert_eq!(b, b"one\ntwo"),
        _ => panic!("expected bytes"),
    }
}

#[test]
fn kept_marks_come_back_and_the_newest_source_stays() {
    let mut s = Sidecar::default();
    for i in 0..MAX_SOURCES {
        s.upsert(&format!("/{i}"), 1, 1, vec![vec![1]], "2026-01-01T00:00:00Z");
    }
    s.upsert("/new", 2, 3, vec![vec![4, 5], vec![]], "2026-01-02T00:00:00Z");
    assert_eq!(s.sources.len(), MAX_SOURCES);
    assert_eq!(s.restore("/new", 2, 3), Some(vec![vec![4, 5], vec![]]));
    assert_eq!(s.restore("/unknown", 2, 3), None);
}

#[test]
fn snapping_is_stable() {
    let view = [2u64, 4, 8];
    for cursor in 0..12u64 {
        let first = snap_cursor(&view, cursor).unwrap();
        assert_eq!(snap_cursor(&view, first), Some(first));
    }
}

#[test]
fn a_string_map_keeps_one_value_per_key() {
    let mut m: StringMap<u32> = StringMap::new();
    m.insert("b", 1);
    m.insert("a", 2);
    m.insert("b", 3);
    assert_eq!(m.len(), 2);
    assert_eq!(m.get("b"), Some(&3));
    m.remove("b");
    assert!(!m.contains_key("b") && m.contains_key("a"));
    m.remove("b");
    assert_eq!(m.len(), 1);
}

#[test]
fn byte_order_is_lexicographic() {
    assert!(lex_before(b"ab", b"b"));
    assert!(lex_before(b"a", b"ab"));
    assert!(!lex_before(b"ab", b"ab"));
    assert!(!lex_before(b"b", b"ab"));
}
