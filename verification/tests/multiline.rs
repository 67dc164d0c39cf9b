use mgi_pulse::engine::format::LogFormat;
use mgi_pulse::engine::record::{RawRecord, RecordBytes, TS_UNTIMED};
use mgi_pulse::io::multiline::MultiLineProducer;
use mgi_pulse::io::RecordProducer;

struct VecProducer {
    records: std::collections::VecDeque<RawRecord>,
}

impl VecProducer {
    fn new(records: Vec<RawRecord>) -> Self {
        Self {
            records: records.into(),
        }
    }
}

impl RecordProducer for VecProducer {
    fn next(&mut self) -> Option<RawRecord> {
        self.records.pop_front()
    }
    fn is_live(&self) -> bool {
        !self.records.is_empty()
    }
}

fn owned(s: &str) -> RawRecord {
    RawRecord {
        source_id: 0,
        line_id: 0,
        ts_micros: TS_UNTIMED,
        severity: 0,
        bytes: RecordBytes::Owned(s.as_bytes().to_vec()),
    }
}

#[test]
fn folds_continuation_lines_into_owner() {
    let records = vec![
        owned("level=error msg=boom"),
        owned("    at foo.bar(line 10)"),
        owned("    at foo.baz(line 20)"),
        owned("level=info msg=ok"),
    ];
    let mut p = MultiLineProducer::new(VecProducer::new(records), LogFormat::Logfmt);
    let first = p.next().unwrap();
    let second = p.next().unwrap();
    assert!(p.next().is_none());
    match &first.bytes {
        RecordBytes::Owned(b) => {
            let text = std::str::from_utf8(b).unwrap();
            assert!(text.starts_with("level=error msg=boom"));
            assert!(text.contains("at foo.bar"));
            assert!(text.contains("at foo.baz"));
        }
        _ => panic!("expected owned"),
    }
    match &second.bytes {
        RecordBytes::Owned(b) => {
            assert_eq!(std::str::from_utf8(b).unwrap(), "level=info msg=ok");
        }
        _ => panic!(),
    }
}

#[test]
fn ndjson_never_folds() {
    let records = vec![
        owned(r#"{"level":"error"}"#),
        owned("    not actually a continuation"),
        owned(r#"{"level":"info"}"#),
    ];
    let mut p = MultiLineProducer::new(VecProducer::new(records), LogFormat::Ndjson);
    let r1 = p.next().unwrap();
    let r2 = p.next().unwrap();
    let r3 = p.next().unwrap();
    assert!(p.next().is_none());
    // NDJSON's is_continuation is always false; each line emerges as
    // its own record.
    match &r1.bytes {
        RecordBytes::Owned(b) => assert_eq!(b.as_slice(), br#"{"level":"error"}"#),
        _ => panic!(),
    }
    match &r2.bytes {
        RecordBytes::Owned(b) => assert_eq!(b.as_slice(), b"    not actually a continuation"),
        _ => panic!(),
    }
    match &r3.bytes {
        RecordBytes::Owned(b) => assert_eq!(b.as_slice(), br#"{"level":"info"}"#),
        _ => panic!(),
    }
}

#[test]
fn handles_record_with_no_continuation() {
    let records = vec![owned("level=info msg=hello")];
    let mut p = MultiLineProducer::new(VecProducer::new(records), LogFormat::Logfmt);
    let r = p.next().unwrap();
    assert!(p.next().is_none());
    match &r.bytes {
        RecordBytes::Owned(b) => assert_eq!(b.as_slice(), b"level=info msg=hello"),
        _ => panic!(),
    }
}

#[test]
fn handles_empty_producer() {
    let mut p = MultiLineProducer::new(VecProducer::new(vec![]), LogFormat::Logfmt);
    assert!(p.next().is_none());
}
