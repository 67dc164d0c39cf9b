use mgi_pulse::engine::indexes::{LineIndex, LineLoc, SeverityIndex, TimeIndex};
use mgi_pulse::engine::record::severity;

#[test]
fn parallel_arrays_stay_in_lockstep() {
    let mut li = LineIndex::default();
    let mut ti = TimeIndex::default();
    let mut si = SeverityIndex::default();

    let id1 = li.push(LineLoc { source_id: 0, offset: 0, len: 10 });
    ti.push(1_700_000_000_000_000);
    si.push(severity::INFO);

    let id2 = li.push(LineLoc { source_id: 0, offset: 10, len: 12 });
    ti.push(1_700_000_001_000_000);
    si.push(severity::ERROR);

    assert_eq!(id1, 0);
    assert_eq!(id2, 1);
    assert_eq!(li.len(), 2);
    assert_eq!(ti.len(), 2);
    assert_eq!(si.len(), 2);
    assert_eq!(si.get(id2), Some(severity::ERROR));
    assert_eq!(ti.get(id1), Some(1_700_000_000_000_000));
}
