use mgi_pulse::engine::format::LogFormat;
use mgi_pulse::engine::parse::FieldNames;
use mgi_pulse::engine::record::{severity, RawRecord, RecordBytes, TS_UNTIMED};
use mgi_pulse::io::stream::{ReadEvent, StreamProducer, StreamStep};

/// Reads of a body, each up to and with its newline.
struct Reads {
    body: Vec<u8>,
    at: usize,
}

impl Reads {
    fn new(body: Vec<u8>) -> Self {
        Reads { body, at: 0 }
    }

    fn read(&mut self) -> ReadEvent {
        if self.at >= self.body.len() {
            return ReadEvent::End;
        }
        let rest = &self.body[self.at..];
        let n = match rest.iter().position(|&b| b == b'\n') {
            Some(i) => i + 1,
            None => rest.len(),
        };
        let chunk = rest[..n].to_vec();
        self.at += n;
        ReadEvent::Chunk(chunk)
    }
}

fn next(prod: &mut StreamProducer, reads: &mut Reads) -> Option<RawRecord> {
    loop {
        match prod.accept(reads.read()) {
            StreamStep::Record(r) => return Some(r),
            StreamStep::ReadMore => {}
            StreamStep::Closed => return None,
        }
    }
}

#[test]
fn emits_records_and_drops_trailing_blank() {
    let mut reads = Reads::new(b"alpha\n\nbeta\r\ngamma".to_vec());
    let mut prod = StreamProducer::new(7);
    let r1 = next(&mut prod, &mut reads).unwrap();
    let r2 = next(&mut prod, &mut reads).unwrap();
    let r3 = next(&mut prod, &mut reads).unwrap();
    assert!(next(&mut prod, &mut reads).is_none());
    for (r, expected, expected_id) in [
        (r1, b"alpha".as_slice(), 0),
        (r2, b"beta", 1),
        (r3, b"gamma", 2),
    ] {
        assert_eq!(r.line_id, expected_id);
        assert_eq!(r.source_id, 7);
        match r.bytes {
            RecordBytes::Owned(b) => assert_eq!(b.as_slice(), expected),
            _ => panic!("expected Owned"),
        }
    }
}

#[test]
fn end_and_failure_close_a_stream_for_good() {
    let mut prod = StreamProducer::new(0);
    assert!(prod.is_live());
    assert!(matches!(prod.accept(ReadEvent::Failed), StreamStep::Closed));
    assert!(!prod.is_live());
    assert!(matches!(
        prod.accept(ReadEvent::Chunk(b"late\n".to_vec())),
        StreamStep::Closed
    ));
    let mut ended = StreamProducer::new(0);
    assert!(matches!(ended.accept(ReadEvent::End), StreamStep::Closed));
    assert!(!ended.is_live());
}

#[test]
fn stream_reads_time_and_level_by_its_format() {
    let fields = FieldNames {
        ts: "time".to_string(),
        level: "lvl".to_string(),
    };
    let mut prod = StreamProducer::new(3)
        .with_format(LogFormat::Logfmt)
        .with_fields(fields);
    assert_eq!(prod.source_id(), 3);
    let line = b"time=1970-01-01T00:00:02Z lvl=warn msg=x\n".to_vec();
    match prod.accept(ReadEvent::Chunk(line)) {
        StreamStep::Record(r) => {
            assert_eq!(r.ts_micros, 2_000_000);
            assert_eq!(r.severity, severity::WARN);
        }
        _ => panic!("expected a record"),
    }
    match prod.accept(ReadEvent::Chunk(b"msg=y\n".to_vec())) {
        StreamStep::Record(r) => assert_eq!(r.ts_micros, TS_UNTIMED),
        _ => panic!("expected a record"),
    }
    assert_eq!(prod.stats().untimed, 1);
}
