use mgi_pulse::engine::record::{RawRecord, RecordBytes, TS_UNTIMED};
use mgi_pulse::io::merge::MergeProducer;
use mgi_pulse::io::RecordProducer;

struct VecProducer {
    records: std::vec::IntoIter<RawRecord>,
}

impl VecProducer {
    fn new(records: Vec<RawRecord>) -> Self {
        Self {
            records: records.into_iter(),
        }
    }
}

impl RecordProducer for VecProducer {
    fn next(&mut self) -> Option<RawRecord> {
        self.records.next()
    }
    fn is_live(&self) -> bool {
        false
    }
}

fn r(source_id: u32, line_id: u64, ts: i64) -> RawRecord {
    RawRecord {
        source_id,
        line_id,
        ts_micros: ts,
        severity: 0,
        bytes: RecordBytes::Owned(Vec::new()),
    }
}

#[test]
fn merges_two_sources_in_time_order() {
    // Source A: ts 10, 30, 50
    // Source B: ts 20, 40, 60
    let a = VecProducer::new(vec![r(0, 0, 10), r(0, 1, 30), r(0, 2, 50)]);
    let b = VecProducer::new(vec![r(1, 0, 20), r(1, 1, 40), r(1, 2, 60)]);
    let mut merge = MergeProducer::new(vec![a, b]);

    let mut emitted = Vec::new();
    while let Some(rec) = merge.next() {
        emitted.push((rec.line_id, rec.source_id, rec.ts_micros));
    }
    assert_eq!(
        emitted,
        vec![
            (0, 0, 10),
            (1, 1, 20),
            (2, 0, 30),
            (3, 1, 40),
            (4, 0, 50),
            (5, 1, 60),
        ]
    );
}

#[test]
fn equal_ts_breaks_tie_by_producer_index() {
    let a = VecProducer::new(vec![r(0, 0, 100)]);
    let b = VecProducer::new(vec![r(1, 0, 100)]);
    let mut merge = MergeProducer::new(vec![a, b]);
    let first = merge.next().unwrap();
    let second = merge.next().unwrap();
    assert!(merge.next().is_none());
    // Lower producer_idx (source_id 0) wins ties.
    assert_eq!(first.source_id, 0);
    assert_eq!(second.source_id, 1);
}

#[test]
fn untimed_records_sort_to_front() {
    let a = VecProducer::new(vec![r(0, 0, 500), r(0, 1, 1500)]);
    let b = VecProducer::new(vec![r(1, 0, TS_UNTIMED), r(1, 1, 1000)]);
    let mut merge = MergeProducer::new(vec![a, b]);
    let mut emitted = Vec::new();
    while let Some(rec) = merge.next() {
        emitted.push((rec.line_id, rec.source_id, rec.ts_micros));
    }
    assert_eq!(
        emitted,
        vec![(0, 1, TS_UNTIMED), (1, 0, 500), (2, 1, 1000), (3, 0, 1500),]
    );
}

#[test]
fn empty_input_terminates_cleanly() {
    let mut merge = MergeProducer::<VecProducer>::new(vec![]);
    assert!(merge.next().is_none());
}

#[test]
fn one_source_drained_first_still_merges_other() {
    let a = VecProducer::new(vec![r(0, 0, 10)]);
    let b = VecProducer::new(vec![r(1, 0, 20), r(1, 1, 30), r(1, 2, 40)]);
    let mut merge = MergeProducer::new(vec![a, b]);
    let mut emitted = Vec::new();
    while let Some(rec) = merge.next() {
        emitted.push((rec.line_id, rec.source_id, rec.ts_micros));
    }
    assert_eq!(
        emitted,
        vec![(0, 0, 10), (1, 1, 20), (2, 1, 30), (3, 1, 40),]
    );
}
