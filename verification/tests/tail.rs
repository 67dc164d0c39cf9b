use mgi_pulse::io::tail::{Rotation, TailPosition};

#[test]
fn start_and_end_positions() {
    assert_eq!(TailPosition::at_end(5, 8).read_pos, 8);
    assert_eq!(TailPosition::at_start(5).read_pos, 0);
}

#[test]
fn shrunken_file_starts_over() {
    let mut at = TailPosition::at_start(5);
    at.consume(22);
    assert_eq!(at.check_rotation(Some((5, 22))), Rotation::Unchanged);
    assert_eq!(at.check_rotation(Some((5, 6))), Rotation::Truncated);
    assert_eq!(at.read_pos, 0);
    assert_eq!(at.inode, 5);
}

#[test]
fn replaced_file_starts_over_under_its_new_inode() {
    let mut at = TailPosition::at_end(5, 100);
    assert_eq!(at.check_rotation(Some((6, 500))), Rotation::Replaced);
    assert_eq!(at, TailPosition { inode: 6, read_pos: 0 });
}

#[test]
fn missing_path_changes_nothing() {
    let mut at = TailPosition::at_end(5, 100);
    assert_eq!(at.check_rotation(None), Rotation::Unchanged);
    assert_eq!(at.read_pos, 100);
}

#[test]
fn position_stops_at_its_limit() {
    let mut at = TailPosition::at_end(1, u64::MAX - 1);
    at.consume(10);
    assert_eq!(at.read_pos, u64::MAX);
}
