use mgi_pulse::panes::table::{lower_bound, snap_cursor};

#[test]
fn lower_bound_finds_lower_bound() {
    let v = vec![0u64, 2, 5, 10, 11];
    assert_eq!(lower_bound(&v, 0), 0);
    assert_eq!(lower_bound(&v, 1), 1);
    assert_eq!(lower_bound(&v, 5), 2);
    assert_eq!(lower_bound(&v, 12), 5);
}

#[test]
fn snap_stays_on_survivor_when_possible() {
    let v = vec![1u64, 4, 7, 9];
    assert_eq!(snap_cursor(&v, 4), Some(4));
    // 5 evicted, snap to nearest <=
    assert_eq!(snap_cursor(&v, 5), Some(4));
    // Below everyone, snap to smallest >=
    assert_eq!(snap_cursor(&v, 0), Some(1));
    // Above everyone, snap to largest <=
    assert_eq!(snap_cursor(&v, 99), Some(9));
    assert_eq!(snap_cursor(&[], 5), None);
}
