use mgi_pulse::engine::histogram::{Bin, Histogram};
use mgi_pulse::engine::indexes::LineLoc;
use mgi_pulse::engine::record::{severity, TS_UNTIMED};
use mgi_pulse::engine::Engine;

fn engine_of(records: &[(i64, u8)]) -> Engine<'static> {
    let mut e = Engine::new();
    for &(ts, sev) in records {
        e.indexes.line.locs.push(LineLoc {
            source_id: 0,
            offset: 0,
            len: 0,
        });
        e.indexes.time.ts.push(ts);
        e.indexes.severity.levels.push(sev);
    }
    e
}

fn total(b: &Bin) -> u64 {
    b.unknown + b.trace + b.debug + b.info + b.warn + b.error + b.fatal
}

#[test]
fn records_fall_into_equal_bins() {
    let e = engine_of(&[
        (0, severity::INFO),
        (4, severity::WARN),
        (5, severity::ERROR),
        (9, severity::FATAL),
        (TS_UNTIMED, severity::INFO),
    ]);
    let h = Histogram::build_over(&e, &[0, 1, 2, 3, 4], 2);
    assert_eq!((h.t_min, h.t_max, h.untimed), (0, 9, 1));
    assert_eq!(h.bins.len(), 2);
    assert_eq!((h.bins[0].info, h.bins[0].warn), (1, 1));
    assert_eq!((h.bins[1].error, h.bins[1].fatal), (1, 1));
    let binned: u64 = h.bins.iter().map(total).sum();
    assert_eq!(binned + h.untimed, 5);
}

#[test]
fn a_view_without_times_has_no_bins() {
    let e = engine_of(&[(TS_UNTIMED, severity::INFO)]);
    let h = Histogram::build_over(&e, &[0], 10);
    assert!(h.bins.is_empty());
    assert_eq!((h.t_min, h.t_max, h.untimed), (0, 0, 1));
    let h = Histogram::build_over(&e, &[], 10);
    assert!(h.bins.is_empty());
    assert_eq!(h.untimed, 0);
}

#[test]
fn a_range_leaves_out_what_is_outside() {
    let e = engine_of(&[
        (0, severity::INFO),
        (10, severity::INFO),
        (14, severity::INFO),
        (19, severity::INFO),
        (20, severity::INFO),
    ]);
    let h = Histogram::build_over_range(&e, &[0, 1, 2, 3, 4], 10, 19, 2);
    assert_eq!((h.t_min, h.t_max), (10, 19));
    assert_eq!(h.bins.iter().map(total).collect::<Vec<_>>(), vec![2, 1]);
}

#[test]
fn the_widest_range_does_not_overflow() {
    let e = engine_of(&[(i64::MIN + 1, severity::INFO), (i64::MAX, severity::INFO)]);
    let h = Histogram::build_over(&e, &[0, 1], 100);
    assert_eq!(total(&h.bins[0]), 1);
    assert_eq!(total(&h.bins[99]), 1);
}
