use mgi_pulse::engine::format::LogFormat;
use mgi_pulse::engine::indexes::LineLoc;
use mgi_pulse::engine::record::{severity, TS_UNTIMED};
use mgi_pulse::engine::stats::Stats;
use mgi_pulse::engine::Engine;

fn make_engine(records: &[(i64, u8, &[u8])]) -> Engine<'static> {
    let mut e = Engine::new();
    for (i, &(t, sev, body)) in records.iter().enumerate() {
        e.indexes.line.locs.push(LineLoc {
            source_id: 0,
            offset: 0,
            len: body.len() as u32,
        });
        e.indexes.time.ts.push(t);
        e.indexes.severity.levels.push(sev);
        e.push_owned(i as u64, body.to_vec());
    }
    e.source_formats.push(LogFormat::Ndjson);
    e
}

#[test]
fn counts_total_and_severity() {
    let recs = vec![
        (1_000_000, severity::ERROR, br#"{"a":1}"# as &[u8]),
        (2_000_000, severity::ERROR, br#"{"a":2}"#),
        (3_000_000, severity::INFO, br#"{"a":3}"#),
    ];
    let e = make_engine(&recs);
    let view: Vec<u64> = (0..3).collect();
    let s = Stats::build(&e, &view, "", 0);
    assert_eq!(s.total, 3);
    assert_eq!(s.by_severity[severity::ERROR as usize], 2);
    assert_eq!(s.by_severity[severity::INFO as usize], 1);
}

#[test]
fn tracks_time_span_and_untimed() {
    let recs = vec![
        (1_000_000, severity::INFO, b"a" as &[u8]),
        (TS_UNTIMED, severity::INFO, b"b"),
        (5_000_000, severity::INFO, b"c"),
    ];
    let e = make_engine(&recs);
    let view: Vec<u64> = (0..3).collect();
    let s = Stats::build(&e, &view, "", 0);
    assert_eq!(s.timed, 2);
    assert_eq!(s.untimed, 1);
    assert_eq!(s.t_min, Some(1_000_000));
    assert_eq!(s.t_max, Some(5_000_000));
}

#[test]
fn top_values_buckets_field() {
    let recs = vec![
        (1, severity::INFO, br#"{"user":"alice"}"# as &[u8]),
        (2, severity::INFO, br#"{"user":"alice"}"#),
        (3, severity::INFO, br#"{"user":"bob"}"#),
    ];
    let e = make_engine(&recs);
    let view: Vec<u64> = (0..3).collect();
    let s = Stats::build(&e, &view, "user", 5);
    assert_eq!(s.top_field, "user");
    assert_eq!(s.top_values, vec![
        ("alice".to_string(), 2),
        ("bob".to_string(), 1),
    ]);
}

#[test]
fn empty_view_returns_zeros() {
    let e = Engine::new();
    let s = Stats::build(&e, &[], "", 0);
    assert_eq!(s.total, 0);
    assert!(s.t_min.is_none());
    assert!(s.t_max.is_none());
}
