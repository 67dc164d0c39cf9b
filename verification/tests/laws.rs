//! What holds over several calls, on values of its own.

use mgi_pulse::clock::format_micros;
use mgi_pulse::engine::dsl::compile;
use mgi_pulse::engine::format::{FieldCache, LogFormat};
use mgi_pulse::engine::parse::ParseStats;
use mgi_pulse::engine::parse_csv::{split_record, Delim};
use mgi_pulse::engine::parse_logfmt::LogfmtPairs;
use mgi_pulse::engine::predicate::Predicate;
use mgi_pulse::engine::parse_syslog;
use mgi_pulse::engine::record::{severity, RawRecord, RecordBytes, TS_UNTIMED};
use mgi_pulse::io::merge::MergeProducer;
use mgi_pulse::io::multiline::MultiLineProducer;
use mgi_pulse::io::RecordProducer;
use mgi_pulse::panes::table::{format_ts_utc, lower_bound, snap_cursor};

struct Listed {
    records: std::vec::IntoIter<RawRecord>,
}

impl RecordProducer for Listed {
    fn next(&mut self) -> Option<RawRecord> {
        self.records.next()
    }
    fn is_live(&self) -> bool {
        false
    }
}

fn record(source_id: u32, ts_micros: i64, text: &str) -> RawRecord {
    RawRecord {
        source_id,
        line_id: 0,
        ts_micros,
        severity: severity::INFO,
        bytes: RecordBytes::Owned(text.as_bytes().to_vec()),
    }
}

fn listed(records: Vec<RawRecord>) -> Listed {
    Listed {
        records: records.into_iter(),
    }
}

fn text_of(rec: &RawRecord) -> String {
    match &rec.bytes {
        RecordBytes::Owned(b) => String::from_utf8(b.clone()).unwrap(),
        _ => panic!("owned bytes"),
    }
}

#[test]
fn written_logfmt_pairs_are_read_back() {
    let pairs = [
        ("msg", "say \"hi\" \\ bye"),
        ("empty", ""),
        ("k.1", "a=b c\td"),
        ("last", "ü"),
    ];
    let mut line = String::new();
    for (key, value) in pairs {
        if !line.is_empty() {
            line.push(' ');
        }
        line.push_str(key);
        line.push_str("=\"");
        line.push_str(&value.replace('\\', "\\\\").replace('"', "\\\""));
        line.push('"');
    }
    let mut scan = LogfmtPairs::new(line.as_bytes());
    for (key, value) in pairs {
        let (k, v) = scan.next().unwrap();
        assert_eq!(k, key.as_bytes());
        assert_eq!(v.as_str(), Some(value));
    }
    assert!(scan.next().is_none());
}

#[test]
fn tallies_count_untimed_records_of_every_format() {
    let mut stats = ParseStats::default();
    let calls: [(LogFormat, &[u8]); 7] = [
        (LogFormat::Ndjson, b"{\"ts\":\"1970-01-01T00:00:01Z\"}"),
        (LogFormat::Ndjson, b"{\"ts\":\"soon\",\"level\":\"warn\"}"),
        (LogFormat::Ndjson, b"nope"),
        (LogFormat::Logfmt, b"ts=1970-01-01T00:00:01Z level=error"),
        (LogFormat::Logfmt, b"level=info"),
        (LogFormat::Syslog, b"not syslog"),
        (LogFormat::Csv, b"a,b"),
    ];
    let mut untimed = 0;
    for (format, line) in calls {
        let (ts, sev) = format.parse_ts_level(line, &mut stats, None);
        assert!(sev <= severity::FATAL);
        if ts == TS_UNTIMED {
            untimed += 1;
        }
    }
    assert_eq!(untimed, 5);
    assert_eq!(stats.untimed, 5);
    assert_eq!((stats.ts_parse_errors, stats.json_parse_errors), (1, 2));
}

#[test]
fn detection_ignores_order_blank_lines_and_trailing_blanks() {
    let a: &[u8] = b"level=info msg=a ts=1";
    let b: &[u8] = b"level=warn msg=b ts=2";
    let c: &[u8] = b"{\"level\":\"info\"}";
    let want = LogFormat::detect(&[a, b, c]);
    assert_eq!(want, LogFormat::Logfmt);
    assert_eq!(LogFormat::detect(&[c, b, a]), want);
    assert_eq!(LogFormat::detect(&[a, b" \t", c, b"", b]), want);
    assert_eq!(LogFormat::detect(&[b"level=info msg=a ts=1 \t\r\n", b, c]), want);
}

#[test]
fn written_csv_cells_are_read_back() {
    assert_eq!(
        split_record(b"\"a,b\",\"say \"\"hi\"\"\",\"\",plain,", Delim::Comma),
        vec!["a,b", "say \"hi\"", "", "plain", ""]
    );
    assert_eq!(split_record(b"a\t\"b\tc\"\td\"e", Delim::Tab), vec!["a", "b\tc", "d\"e"]);
    assert_eq!(split_record(b"", Delim::Comma), vec![""]);
    assert_eq!(split_record(b",", Delim::Comma), vec!["", ""]);
}

#[test]
fn a_facility_changes_nothing_but_the_priority() {
    let mut a = ParseStats::default();
    let mut b = ParseStats::default();
    let kern: &[u8] = b"<3>1 2026-06-01T12:00:00Z host app 1 - - boom";
    let local: &[u8] = b"<187>1 2026-06-01T12:00:00Z host app 1 - - boom";
    assert_eq!(
        parse_syslog::ts_and_level(kern, &mut a, None),
        parse_syslog::ts_and_level(local, &mut b, None)
    );
    for key in ["host", "app", "msg", "procid"] {
        assert_eq!(
            parse_syslog::project_field(kern, key),
            parse_syslog::project_field(local, key)
        );
    }
    assert_eq!(parse_syslog::project_field(kern, "msg").as_deref(), Some("boom"));
}

#[test]
fn a_merge_keeps_streams_in_order_and_ties_by_index() {
    let a = listed(vec![record(0, 5, "a1"), record(0, 5, "a2"), record(0, 3, "a3")]);
    let b = listed(vec![record(1, 5, "b1"), record(1, TS_UNTIMED, "b2"), record(1, 4, "b3")]);
    let mut merge = MergeProducer::new(vec![a, b]);
    let mut texts = Vec::new();
    while let Some(rec) = merge.next() {
        assert_eq!(rec.line_id, texts.len() as u64);
        texts.push(text_of(&rec));
    }
    assert_eq!(texts.len(), 6);
    for stream in [["a1", "a2", "a3"], ["b1", "b2", "b3"]] {
        let at: Vec<usize> = stream
            .iter()
            .map(|s| texts.iter().position(|t| t == s).unwrap())
            .collect();
        assert!(at[0] < at[1] && at[1] < at[2]);
    }
    assert_eq!(texts[0], "a1");
}

#[test]
fn every_head_makes_one_record() {
    let lines = ["  stray", "level=info msg=a", "  more", "\teven more", "level=warn msg=b"];
    let records = lines.iter().map(|l| record(0, 1, l)).collect();
    let mut folded = MultiLineProducer::new(listed(records), LogFormat::Logfmt);
    let mut texts = Vec::new();
    while let Some(rec) = folded.next() {
        texts.push(text_of(&rec));
    }
    assert_eq!(
        texts,
        vec!["  stray", "level=info msg=a\n  more\n\teven more", "level=warn msg=b"]
    );
}

fn selects(query: &str, line: &[u8]) -> bool {
    let rec = RawRecord {
        source_id: 0,
        line_id: 0,
        ts_micros: 0,
        severity: severity::INFO,
        bytes: RecordBytes::Owned(line.to_vec()),
    };
    let mut cache = FieldCache::new(LogFormat::Logfmt, line);
    compile(query).unwrap().matches(&rec, &mut cache)
}

#[test]
fn bare_queries_stand_for_their_groups() {
    let same = [
        ("a=1 OR b=1 AND c=1", "a=1 OR (b=1 AND c=1)"),
        ("NOT a=1 AND b=1", "(NOT a=1) AND b=1"),
        ("NOT NOT a=1", "a=1"),
        ("a=1 OR b=1", "NOT (NOT a=1 AND NOT b=1)"),
        ("a=\"1\" OR b~/1/ AND c!=0", "a=\"1\" OR (b~/1/ AND c!=0)"),
    ];
    for a in 0..2 {
        for b in 0..2 {
            for c in 0..2 {
                let line = format!("a={a} b={b} c={c}");
                for (x, y) in same {
                    assert_eq!(selects(x, line.as_bytes()), selects(y, line.as_bytes()), "{x}");
                }
            }
        }
    }
    assert!(selects("a=1 OR b=1 AND c=1", b"a=1 b=0 c=0"));
    assert!(!selects("(a=1 OR b=1) AND c=1", b"a=1 b=0 c=0"));
}

#[test]
fn written_micros_sort_as_they_follow() {
    let times = [1i64, 999_999, 1_000_000, 86_400_000_000, 1_780_315_200_000_042];
    for pair in times.windows(2) {
        assert!(format_micros(pair[0]) < format_micros(pair[1]));
        assert!(format_ts_utc(pair[0]) < format_ts_utc(pair[1]));
    }
}

#[test]
fn a_view_may_repeat_a_row() {
    let view = [1u64, 4, 4, 9];
    assert_eq!(lower_bound(&view, 4), 1);
    assert_eq!(lower_bound(&view, 5), 3);
    assert_eq!(snap_cursor(&view, 4), Some(4));
    assert_eq!(snap_cursor(&view, 8), Some(4));
}
