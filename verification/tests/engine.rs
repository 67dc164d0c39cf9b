use mgi_pulse::engine::record::{severity, RawRecord, RecordBytes};
use mgi_pulse::engine::Engine;

fn owned_rec(line_id: u64, ts: i64, sev: u8, bytes: &[u8]) -> RawRecord {
    RawRecord {
        source_id: 0,
        line_id,
        ts_micros: ts,
        severity: sev,
        bytes: RecordBytes::Owned(bytes.to_vec()),
    }
}

#[test]
fn ingest_one_appends_and_returns_line_id() {
    let mut e = Engine::new();
    let id1 = e.ingest_one(owned_rec(0, 1_000_000, severity::INFO, b"a"));
    let id2 = e.ingest_one(owned_rec(0, 2_000_000, severity::WARN, b"b"));
    assert_eq!(id1, 0);
    assert_eq!(id2, 1);
    assert_eq!(e.indexes.len(), 2);
    assert_eq!(e.line_bytes(0), b"a");
    assert_eq!(e.line_bytes(1), b"b");
    assert_eq!(e.indexes.time.ts, vec![1_000_000, 2_000_000]);
    assert_eq!(
        e.indexes.severity.levels,
        vec![severity::INFO, severity::WARN]
    );
}

#[test]
fn ingest_one_grows_existing_engine() {
    // Seed with one record, then live-ingest a second.
    let mut e = Engine::new();
    e.ingest_one(owned_rec(0, 1_000_000, severity::INFO, b"seed"));
    assert_eq!(e.indexes.len(), 1);
    e.ingest_one(owned_rec(0, 2_000_000, severity::ERROR, b"live"));
    assert_eq!(e.indexes.len(), 2);
    assert_eq!(e.line_bytes(1), b"live");
}
