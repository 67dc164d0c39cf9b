use mgi_pulse::bookmarks_store::{Sidecar, MAX_SOURCES};
use mgi_pulse::clock::format_unix_seconds_utc;

#[test]
fn restore_matches_inode_and_size() {
    let mut s = Sidecar::default();
    s.upsert(
        "/p",
        42,
        1000,
        vec![vec![1, 2, 3]],
        "2026-06-03T00:00:00Z",
    );
    // Same inode, equal size → restored.
    assert!(s.restore("/p", 42, 1000).is_some());
    // Same inode, grew → restored (append-only).
    assert!(s.restore("/p", 42, 1500).is_some());
}

#[test]
fn restore_drops_on_inode_change() {
    let mut s = Sidecar::default();
    s.upsert("/p", 42, 1000, vec![vec![1]], "2026-06-03T00:00:00Z");
    assert!(s.restore("/p", 99, 1000).is_none());
    // Stale entry removed.
    assert!(!s.sources.contains_key("/p"));
}

#[test]
fn restore_drops_on_shrink() {
    let mut s = Sidecar::default();
    s.upsert("/p", 42, 1000, vec![vec![1]], "2026-06-03T00:00:00Z");
    // size 500 < saved 1000 → truncated/rewritten, drop.
    assert!(s.restore("/p", 42, 500).is_none());
    assert!(!s.sources.contains_key("/p"));
}

#[test]
fn empty_tabs_remove_entry() {
    let mut s = Sidecar::default();
    s.upsert("/p", 42, 1000, vec![vec![1]], "2026-06-03T00:00:00Z");
    assert!(s.sources.contains_key("/p"));
    // Now upsert with empty bookmarks → entry removed.
    s.upsert("/p", 42, 1000, vec![vec![], vec![]], "2026-06-03T00:00:01Z");
    assert!(!s.sources.contains_key("/p"));
}

#[test]
fn lru_evicts_oldest_over_cap() {
    let mut s = Sidecar::default();
    // Insert MAX_SOURCES + 1 entries with monotonic timestamps.
    for i in 0..=MAX_SOURCES {
        let ts = format!("2026-06-03T00:{:02}:{:02}Z", i / 60, i % 60);
        s.upsert(&format!("/p{}", i), i as u64, 100, vec![vec![1]], &ts);
    }
    assert_eq!(s.sources.len(), MAX_SOURCES);
    // The oldest (/p0) should be gone, the newest (/pMAX) should be present.
    assert!(!s.sources.contains_key("/p0"));
    assert!(s.sources.contains_key(&format!("/p{}", MAX_SOURCES)));
}

#[test]
fn rfc3339_format_is_lex_sortable() {
    // 2026-06-03T00:01:00Z < 2026-06-03T00:02:00Z lexicographically.
    let a = format_unix_seconds_utc(1_770_667_260);
    let b = format_unix_seconds_utc(1_770_667_320);
    assert!(a < b);
}
