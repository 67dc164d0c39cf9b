use mgi_pulse::app::view::View;
use mgi_pulse::app::App;
use mgi_pulse::engine::histogram::Histogram;
use mgi_pulse::engine::indexes::LineLoc;
use mgi_pulse::engine::record::{severity, RawRecord, RecordBytes, TS_UNTIMED};
use mgi_pulse::engine::Engine;
use mgi_pulse::theme::Theme;
fn synthetic_engine(records: &[(i64, u8)]) -> Engine<'static> {
    let mut e = Engine::new();
    for &(ts, sev) in records {
        e.indexes.line.locs.push(LineLoc {
            source_id: 0,
            offset: 0,
            len: 0,
        });
        e.indexes.time.ts.push(ts);
        e.indexes.severity.levels.push(sev);
    }
    e
}
#[test]
fn histogram_cache_invalidates_on_predicate_change_same_count() {
    // 10 records: 5 errors at t=0..5, 5 info at t=100..105.
    let mut records = Vec::new();
    for i in 0..5 {
        records.push((i * 1_000_000, severity::ERROR));
    }
    for i in 0..5 {
        records.push(((100 + i) * 1_000_000, severity::INFO));
    }
    let engine = synthetic_engine(&records);

    let mut view = View::new_all(&engine);
    assert_eq!(view.filtered_view.len(), 10);

    view.set_severity("Error", &[severity::ERROR], &engine);
    assert_eq!(view.filtered_view.len(), 5);
    let gen_after_error = view.generation;
    let h_error = Histogram::build_over(&engine, &view.filtered_view, 10);

    view.set_severity("Info", &[severity::INFO], &engine);
    assert_eq!(view.filtered_view.len(), 5);
    let gen_after_info = view.generation;
    assert_ne!(
        gen_after_info, gen_after_error,
        "generation must change on a filter swap so the cache key invalidates"
    );
    let h_info = Histogram::build_over(&engine, &view.filtered_view, 10);

    // The two histograms must differ. Concretely: error filter has no
    // info bins, info filter has no error bins.
    let total_info_in_error_view: u64 = h_error.bins.iter().map(|b| b.info).sum();
    let total_error_in_info_view: u64 = h_info.bins.iter().map(|b| b.error).sum();
    assert_eq!(total_info_in_error_view, 0);
    assert_eq!(total_error_in_info_view, 0);
    let total_error_in_error_view: u64 = h_error.bins.iter().map(|b| b.error).sum();
    let total_info_in_info_view: u64 = h_info.bins.iter().map(|b| b.info).sum();
    assert_eq!(total_error_in_error_view, 5);
    assert_eq!(total_info_in_info_view, 5);
}
#[test]
fn bookmark_toggle_round_trip() {
    let records: Vec<(i64, u8)> = (0..5).map(|i| (i * 1_000_000, severity::INFO)).collect();
    let engine = synthetic_engine(&records);
    let mut view = View::new_all(&engine);
    view.cursor = 2;

    view.toggle_bookmark();
    assert_eq!(view.bookmarks, vec![2]);
    view.cursor = 4;
    view.toggle_bookmark();
    assert_eq!(view.bookmarks, vec![2, 4]);
    view.cursor = 2;
    view.toggle_bookmark();
    assert_eq!(view.bookmarks, vec![4]);
}
#[test]
fn bookmark_jump_cycles_through_marks() {
    let records: Vec<(i64, u8)> = (0..10).map(|i| (i * 1_000_000, severity::INFO)).collect();
    let engine = synthetic_engine(&records);
    let mut view = View::new_all(&engine);

    for lid in [1u64, 4, 7] {
        view.cursor = lid;
        view.toggle_bookmark();
    }
    // From line 0, B should land on 1.
    view.cursor = 0;
    assert!(view.jump_next_bookmark());
    assert_eq!(view.cursor, 1);
    // From 1, B advances to 4, then 7, then wraps to 1.
    assert!(view.jump_next_bookmark());
    assert_eq!(view.cursor, 4);
    assert!(view.jump_next_bookmark());
    assert_eq!(view.cursor, 7);
    assert!(view.jump_next_bookmark());
    assert_eq!(view.cursor, 1);
}
#[test]
fn clear_filters_returns_to_all_and_bumps_generation() {
    let records: Vec<(i64, u8)> = (0..5).map(|i| (i * 1_000_000, severity::INFO)).collect();
    let engine = synthetic_engine(&records);

    let mut view = View::new_all(&engine);
    let gen_initial = view.generation;
    view.set_severity("Error", &[severity::ERROR], &engine);
    assert_eq!(view.filtered_view.len(), 0);
    let gen_after_set = view.generation;
    assert_ne!(gen_after_set, gen_initial);

    view.clear_filters(&engine);
    assert_eq!(view.filtered_view.len(), 5);
    assert!(view.regex_filter.is_none());
    assert!(view.field_filters.is_empty());
    assert!(view.severity_levels.is_empty());
}

#[test]
fn an_empty_severity_set_is_no_filter() {
    let mut engine = Engine::new();
    for sev in [severity::INFO, severity::WARN] {
        engine.ingest_one(RawRecord {
            source_id: 0,
            line_id: 0,
            ts_micros: 1,
            severity: sev,
            bytes: RecordBytes::Owned(b"x".to_vec()),
        });
    }
    let all = View::new_with_severity(&engine, "Any", &[]);
    assert_eq!(all.filtered_view, vec![0, 1]);
    assert_eq!(all.status_msg, "2 records (no filter)");
    assert_eq!(all.title, "Any");
    let warn = View::new_with_severity(&engine, "Warn", &[severity::WARN]);
    assert_eq!(warn.filtered_view, vec![1]);
    assert_eq!(warn.cursor, 1);
}

#[test]
fn scrolling_follows_a_cursor_behind_the_last_row() {
    let mut view = View::new_with_severity(&Engine::new(), "Any", &[]);
    view.filtered_view = vec![2, 4, 6];
    view.cursor = 9;
    view.scroll_top = 2;
    view.ensure_cursor_visible(2);
    assert_eq!(view.scroll_top, 6);
    view.cursor = 4;
    view.ensure_cursor_visible(1);
    assert_eq!(view.scroll_top, 4);
}

#[test]
fn view_stats_part_timed_from_untimed() {
    let mut engine = Engine::new();
    for ts in [1i64, TS_UNTIMED, 3] {
        engine.ingest_one(RawRecord {
            source_id: 0,
            line_id: 0,
            ts_micros: ts,
            severity: severity::INFO,
            bytes: RecordBytes::Owned(b"x".to_vec()),
        });
    }
    let app = App::new(engine, "src".to_string(), None, Theme::Dark);
    let stats = app.view_stats();
    assert_eq!((stats.total, stats.timed, stats.untimed), (3, 2, 1));
}
