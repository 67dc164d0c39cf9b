use mgi_pulse::bench::{iter_lines, run_raw_scan, run_serde_borrow, run_simd_json, Stats};

const BODY: &[u8] = b"{\"ts\":\"2026\",\"level\":\"info\",\"msg\":\"a\"}\n\
                      {\"ts\":\"2027\",\"level\":\"error\"}\n\
                      \n\
                      not json\n\
                      {\"ts\":\"2028\",\"level\":\"odd\"}\n\
                      {\"ts\":\"cut";

#[test]
fn only_ended_lines_are_scanned() {
    assert_eq!(iter_lines(b"a\n\nb").len(), 2);
    assert_eq!(iter_lines(b"a\n\nb\n").len(), 3);
    assert!(iter_lines(b"").is_empty());
}

#[test]
fn a_raw_scan_counts_lines_and_bytes() {
    let s = run_raw_scan(b"abc\n\nde\n");
    assert_eq!((s.lines, s.bytes, s.ts_chk), (2, 7, 5));
}

#[test]
fn strategies_tally_the_same_levels() {
    let serde = run_serde_borrow(BODY);
    let simd = run_simd_json(BODY);
    for s in [&serde, &simd] {
        assert_eq!(s.lines, 4);
        assert_eq!(s.parse_errors, 1);
        assert_eq!((s.info, s.error, s.other), (1, 1, 1));
        assert_eq!((s.ts_chk, s.lv_chk), (12, 12));
    }
    assert_eq!(run_raw_scan(BODY).lines, serde.lines);
    assert_eq!(run_raw_scan(BODY).bytes, serde.bytes);
}

#[test]
fn every_level_has_its_counter() {
    let mut s = Stats::default();
    for level in ["trace", "debug", "info", "warn", "error", "fatal"] {
        s.tally(b"t", level.as_bytes());
    }
    assert_eq!(
        (s.trace, s.debug, s.info, s.warn, s.error, s.other),
        (1, 1, 1, 1, 1, 1)
    );
    assert_eq!(s.ts_chk, 6);
}
