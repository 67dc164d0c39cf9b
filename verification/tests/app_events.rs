use mgi_pulse::app::input::{binding, Command, Effect, Event, KeyCode, KeyPress, Mode};
use mgi_pulse::app::screen::{Height, Pane};
use mgi_pulse::app::App;
use mgi_pulse::engine::format::LogFormat;
use mgi_pulse::engine::indexer::drain;
use mgi_pulse::engine::record::{severity, RawRecord, RecordBytes};
use mgi_pulse::engine::Engine;
use mgi_pulse::io::file::FileProducer;
use mgi_pulse::io::RecordProducer;
use mgi_pulse::panes::Row;
use mgi_pulse::theme::Theme;

const BODY: &[u8] = b"{\"ts\":\"2026-06-01T12:00:00Z\",\"level\":\"error\",\"logger\":\"db\",\"msg\":\"refused\"}\n\
{\"ts\":\"2026-06-01T12:00:10Z\",\"level\":\"warn\",\"logger\":\"db\",\"msg\":\"slow\"}\n\
{\"ts\":\"2026-06-01T12:00:20Z\",\"level\":\"info\",\"logger\":\"web\",\"msg\":\"ok\"}\n\
{\"ts\":\"2026-06-01T12:00:30Z\",\"level\":\"debug\",\"logger\":\"web\",\"msg\":\"ok\"}\n";

fn open(body: &'static [u8]) -> App<'static> {
    let mut engine = Engine::new();
    let mut producer = FileProducer::new(body, 0);
    engine.mmaps.push(producer.mmap());
    engine.source_formats.push(LogFormat::Ndjson);
    drain(&mut producer, &mut engine);
    engine.indexes.parse_stats.fold(producer.stats());
    engine.scan_schema();
    App::new(engine, "app.log".to_string(), None, Theme::Dark)
}

fn press(app: &mut App, code: KeyCode) -> Effect {
    let mut wheel = 0;
    let key = KeyPress {
        code,
        control_only: false,
        shift: false,
    };
    let effect = app.handle(Event::Key(key), &mut wheel);
    app.settle(wheel);
    effect
}

fn control(app: &mut App, c: char) -> Effect {
    let mut wheel = 0;
    let key = KeyPress {
        code: KeyCode::Char(c),
        control_only: true,
        shift: false,
    };
    app.handle(Event::Key(key), &mut wheel)
}

fn typed(app: &mut App, text: &str) -> Effect {
    for c in text.chars() {
        press(app, KeyCode::Char(c));
    }
    press(app, KeyCode::Enter)
}

fn shown(app: &App) -> Vec<u64> {
    app.views[app.active_tab].filtered_view.clone()
}

fn status(app: &App) -> String {
    app.views[app.active_tab].status_msg.clone()
}

fn text_of(row: &Row) -> String {
    row.spans.iter().map(|s| s.text.as_str()).collect()
}

#[test]
fn a_levelled_source_opens_severity_tabs() {
    let app = open(BODY);
    let titles: Vec<&str> = app.views.iter().map(|v| v.title.as_str()).collect();
    assert_eq!(titles, vec!["All", "Error", "Warn", "Info", "Debug"]);
    let sizes: Vec<usize> = app.views.iter().map(|v| v.filtered_view.len()).collect();
    assert_eq!(sizes, vec![4, 1, 1, 1, 1]);
    assert_eq!(app.views[0].status_msg, "4 records");
    assert_eq!(open(b"plain\ntext\n").views.len(), 1);
}

#[test]
fn tabs_cycle_both_ways() {
    let mut app = open(BODY);
    press(&mut app, KeyCode::BackTab);
    assert_eq!(app.active_tab, 4);
    press(&mut app, KeyCode::Tab);
    assert_eq!(app.active_tab, 0);
    app.next_tab();
    app.prev_tab();
    assert_eq!(app.active_tab, 0);
}

#[test]
fn tabs_open_and_close_and_the_last_one_quits() {
    let mut app = open(b"plain\n");
    assert!(matches!(control(&mut app, 't'), Effect::Nothing));
    assert_eq!((app.views.len(), app.active_tab), (2, 1));
    assert!(matches!(control(&mut app, 'w'), Effect::Nothing));
    assert_eq!((app.views.len(), app.active_tab), (1, 0));
    assert!(matches!(control(&mut app, 'w'), Effect::Quit));
    assert_eq!(app.views.len(), 1);
    assert!(matches!(press(&mut app, KeyCode::Char('q')), Effect::Quit));
    assert!(matches!(control(&mut app, 'c'), Effect::Quit));
}

#[test]
fn a_search_narrows_and_escape_clears() {
    let mut app = open(BODY);
    press(&mut app, KeyCode::Char('/'));
    assert_eq!(text_of(&app.prompt_row().unwrap()), " / _");
    typed(&mut app, "slow|refused");
    assert!(app.input.is_none());
    assert_eq!(shown(&app), vec![0, 1]);
    assert_eq!(status(&app), "/slow|refused/  2 matches of 4");
    press(&mut app, KeyCode::Esc);
    assert_eq!(shown(&app), vec![0, 1, 2, 3]);
    assert_eq!(status(&app), "4 records (no filter)");
}

#[test]
fn a_bad_regex_changes_only_the_status() {
    let mut app = open(BODY);
    press(&mut app, KeyCode::Char('/'));
    typed(&mut app, "(");
    assert_eq!(shown(&app).len(), 4);
    assert!(status(&app).starts_with("regex error: "));
}

#[test]
fn prompts_are_edited_and_dropped() {
    let mut app = open(BODY);
    press(&mut app, KeyCode::Char('f'));
    press(&mut app, KeyCode::Char('x'));
    press(&mut app, KeyCode::Char('y'));
    press(&mut app, KeyCode::Backspace);
    assert_eq!(text_of(&app.prompt_row().unwrap()), " f x_");
    press(&mut app, KeyCode::Esc);
    assert!(app.prompt_row().is_none());
    assert_eq!(shown(&app).len(), 4);
}

#[test]
fn field_filters_stack_up() {
    let mut app = open(BODY);
    press(&mut app, KeyCode::Char('f'));
    typed(&mut app, "logger = web");
    assert_eq!(shown(&app), vec![2, 3]);
    press(&mut app, KeyCode::Char('f'));
    typed(&mut app, "level=info");
    assert_eq!(shown(&app), vec![2]);
    assert_eq!(status(&app), "logger=web & level=info  1 matches of 4");
    press(&mut app, KeyCode::Char('f'));
    typed(&mut app, "nothing");
    assert_eq!(status(&app), "filter must be 'field=value', got 'nothing'");
    press(&mut app, KeyCode::Char('f'));
    typed(&mut app, "=x");
    assert_eq!(status(&app), "filter field is empty");
    assert_eq!(shown(&app), vec![2]);
}

#[test]
fn queries_filter_or_say_what_is_wrong() {
    let mut app = open(BODY);
    press(&mut app, KeyCode::Char(':'));
    typed(&mut app, "logger=db AND NOT level=error");
    assert_eq!(shown(&app), vec![1]);
    press(&mut app, KeyCode::Char(';'));
    typed(&mut app, "level=");
    assert!(status(&app).starts_with("dsl error: "));
    assert_eq!(shown(&app), vec![1]);
    press(&mut app, KeyCode::Char(':'));
    typed(&mut app, "  ");
    assert_eq!(shown(&app).len(), 4);
}

#[test]
fn times_are_jumped_to() {
    let mut app = open(BODY);
    press(&mut app, KeyCode::Char('t'));
    typed(&mut app, "2026-06-01T12:00:15Z");
    assert_eq!(app.views[0].cursor, 2);
    press(&mut app, KeyCode::Char('t'));
    typed(&mut app, "2027");
    assert_eq!(status(&app), "no records at/after that time");
    press(&mut app, KeyCode::Char('t'));
    typed(&mut app, "noon");
    assert_eq!(status(&app), "unrecognized time: 'noon'");
    assert_eq!(app.views[0].cursor, 2);
}

#[test]
fn severity_keys_filter_and_min_mode_widens() {
    let mut app = open(BODY);
    press(&mut app, KeyCode::Char('2'));
    assert_eq!(shown(&app), vec![1]);
    assert_eq!(status(&app), "Warn  1 matches of 4");
    press(&mut app, KeyCode::Char('m'));
    assert_eq!(shown(&app), vec![0, 1]);
    assert_eq!(status(&app), "Warn+  2 matches of 4");
    press(&mut app, KeyCode::Char('m'));
    assert_eq!(shown(&app), vec![1]);
    press(&mut app, KeyCode::Char('1'));
    assert_eq!(shown(&app), vec![0]);
    press(&mut app, KeyCode::Char('0'));
    assert_eq!(shown(&app).len(), 4);
}

#[test]
fn the_cursor_moves_and_survives_filters() {
    let mut app = open(BODY);
    press(&mut app, KeyCode::Down);
    press(&mut app, KeyCode::Down);
    assert_eq!(app.views[0].cursor, 2);
    press(&mut app, KeyCode::PageDown);
    assert_eq!(app.views[0].cursor, 3);
    press(&mut app, KeyCode::PageUp);
    assert_eq!(app.views[0].cursor, 0);
    press(&mut app, KeyCode::Char('G'));
    assert_eq!(app.views[0].cursor, 3);
    press(&mut app, KeyCode::Char('2'));
    assert_eq!(app.views[0].cursor, 1);
    press(&mut app, KeyCode::Char('0'));
    assert_eq!(app.views[0].cursor, 1);
    press(&mut app, KeyCode::Char('g'));
    press(&mut app, KeyCode::Up);
    assert_eq!(app.views[0].cursor, 0);
}

#[test]
fn wheel_turns_add_up_over_a_batch() {
    let mut app = open(BODY);
    let mut wheel = 0;
    app.handle(Event::ScrollDown, &mut wheel);
    app.handle(Event::ScrollDown, &mut wheel);
    app.handle(Event::ScrollUp, &mut wheel);
    assert_eq!((wheel, app.views[0].cursor), (1, 0));
    app.settle(wheel);
    assert_eq!(app.views[0].cursor, 1);
    let mut full = i64::MAX;
    app.handle(Event::ScrollDown, &mut full);
    assert_eq!(full, i64::MAX);
}

#[test]
fn marks_are_toggled_jumped_to_and_brought_back() {
    let mut app = open(BODY);
    press(&mut app, KeyCode::Char('B'));
    assert_eq!(status(&app), "no bookmarks (press `b` to add)");
    press(&mut app, KeyCode::Char('b'));
    press(&mut app, KeyCode::Char('G'));
    press(&mut app, KeyCode::Char('b'));
    press(&mut app, KeyCode::Char('B'));
    assert_eq!(app.views[0].cursor, 0);
    press(&mut app, KeyCode::Char('3'));
    press(&mut app, KeyCode::Char('B'));
    assert_eq!(
        status(&app),
        "no bookmarks in the active filter (2 hidden)"
    );
    let kept = app.bookmarks();
    assert_eq!(kept[0], vec![0, 3]);
    let mut again = open(BODY);
    again.restore_bookmarks(&kept);
    assert_eq!(again.bookmarks(), kept);
    again.restore_bookmarks(&vec![vec![3, 1, 1]]);
    assert_eq!(again.views[0].bookmarks, vec![1, 3]);
}

#[test]
fn overlays_toggle() {
    let mut app = open(BODY);
    press(&mut app, KeyCode::Char('d'));
    press(&mut app, KeyCode::Char('?'));
    assert!(app.views[0].detail_open && app.stats_open);
    press(&mut app, KeyCode::Char('d'));
    press(&mut app, KeyCode::Char('?'));
    assert!(!app.views[0].detail_open && !app.stats_open);
    let stats = app.view_stats();
    assert_eq!(stats.total, 4);
    assert_eq!(stats.by_severity[severity::WARN as usize], 1);
}

#[test]
fn the_column_cap_moves_by_one() {
    let mut app = open(BODY);
    press(&mut app, KeyCode::Char(']'));
    assert_eq!(app.max_columns, None);
    let offered = app.engine.schema.as_ref().unwrap().auto_columns(99).len();
    press(&mut app, KeyCode::Char('['));
    assert_eq!(app.max_columns, Some(offered - 1));
    press(&mut app, KeyCode::Char(']'));
    assert_eq!(app.max_columns, Some(offered));
    app.max_columns = Some(0);
    press(&mut app, KeyCode::Char('['));
    assert_eq!(app.max_columns, Some(0));
}

#[test]
fn a_view_is_saved_line_by_line() {
    let mut app = open(BODY);
    press(&mut app, KeyCode::Char('3'));
    press(&mut app, KeyCode::Char('s'));
    match typed(&mut app, "out.log") {
        Effect::Save(path) => assert_eq!(path, "out.log"),
        _ => panic!("expected a save"),
    }
    let line: &[u8] = BODY.split(|&b| b == b'\n').nth(2).unwrap();
    let mut want = line.to_vec();
    want.push(b'\n');
    assert_eq!(app.saved_bytes(), want);
    app.set_status("saved".to_string());
    assert_eq!(status(&app), "saved");
}

#[test]
fn a_rescan_takes_the_schema_from_the_view() {
    let mut app = open(b"{\"a\":1}\n{\"a\":2}\n{\"b\":3}\n");
    press(&mut app, KeyCode::Char('f'));
    typed(&mut app, "b=3");
    press(&mut app, KeyCode::Char('R'));
    assert_eq!(status(&app), "schema rescanned over 1 records");
    let schema = app.engine.schema.as_ref().unwrap();
    assert_eq!(schema.auto_columns(8), vec!["b".to_string()]);
    assert_eq!(schema.records_scanned, 1);
}

#[test]
fn the_scrub_selects_one_bar() {
    let mut app = open(BODY);
    // Nothing drawn yet: no timeline to put a cursor on.
    press(&mut app, KeyCode::Char('>'));
    assert!(app.views[0].scrub.is_none());
    let _ = app.views[0].histogram(&app.engine, 4);
    press(&mut app, KeyCode::Char('>'));
    assert_eq!(app.views[0].scrub.unwrap().at, 2);
    press(&mut app, KeyCode::Char('<'));
    assert_eq!(app.views[0].scrub.unwrap().at, 1);
    press(&mut app, KeyCode::Enter);
    assert!(app.views[0].scrub.is_none());
    assert_eq!(shown(&app), vec![1]);
    assert!(status(&app).ends_with("1 matches of 4"));
    press(&mut app, KeyCode::Esc);
    assert_eq!(shown(&app).len(), 4);
}

#[test]
fn shift_scrubs_ten_bars_and_stops_at_the_end() {
    let mut app = open(BODY);
    let _ = app.views[0].histogram(&app.engine, 40);
    press(&mut app, KeyCode::Char('<'));
    assert_eq!(app.views[0].scrub.unwrap().at, 20);
    let mut wheel = 0;
    let key = |c: char| KeyPress {
        code: KeyCode::Char(c),
        control_only: false,
        shift: true,
    };
    app.handle(Event::Key(key('<')), &mut wheel);
    assert_eq!(app.views[0].scrub.unwrap().at, 10);
    for _ in 0..5 {
        app.handle(Event::Key(key('>')), &mut wheel);
    }
    assert_eq!(app.views[0].scrub.unwrap().at, 39);
}

#[test]
fn zoom_halves_and_doubles_around_the_cursor() {
    let mut app = open(BODY);
    let _ = app.views[0].histogram(&app.engine, 4);
    press(&mut app, KeyCode::Char('>'));
    let start = app.views[0].scrub.unwrap();
    assert_eq!(start.hi - start.lo, 30_000_000);
    press(&mut app, KeyCode::Char('+'));
    let near = app.views[0].scrub.unwrap();
    assert!(near.zoomed && start.lo <= near.lo && near.hi <= start.hi);
    assert_eq!(near.hi - near.lo + 1, 15_000_001);
    assert!(app.views[0].histogram_cache.is_none());
    let drawn = app.views[0].histogram(&app.engine, 4);
    assert_eq!((drawn.t_min, drawn.t_max), (near.lo, near.hi));
    press(&mut app, KeyCode::Char('-'));
    let far = app.views[0].scrub.unwrap();
    assert!(!far.zoomed);
    assert_eq!((far.lo, far.hi), (start.lo, start.hi));
}

#[test]
fn a_zoomed_scrub_selects_its_window_and_escape_cancels_first() {
    let mut app = open(BODY);
    press(&mut app, KeyCode::Char('/'));
    typed(&mut app, "logger");
    let _ = app.views[0].histogram(&app.engine, 4);
    press(&mut app, KeyCode::Char('+'));
    assert!(app.views[0].scrub.is_some());
    press(&mut app, KeyCode::Esc);
    assert!(app.views[0].scrub.is_none());
    assert_eq!(app.views[0].regex_filter.as_deref(), Some("logger"));
    let _ = app.views[0].histogram(&app.engine, 4);
    press(&mut app, KeyCode::Char('+'));
    let s = app.views[0].scrub.unwrap();
    press(&mut app, KeyCode::Enter);
    assert_eq!(app.views[0].time_range, Some((s.lo, s.hi)));
    for id in shown(&app) {
        let t = app.engine.indexes.time.ts[id as usize];
        assert!(s.lo <= t && t <= s.hi);
    }
    press(&mut app, KeyCode::Esc);
    assert!(app.views[0].regex_filter.is_none());
    assert!(app.views[0].time_range.is_none());
}

struct Queue(Vec<RawRecord>);

impl RecordProducer for Queue {
    fn next(&mut self) -> Option<RawRecord> {
        if self.0.is_empty() {
            None
        } else {
            Some(self.0.remove(0))
        }
    }

    fn is_live(&self) -> bool {
        true
    }
}

#[test]
fn live_records_pass_the_filters_of_every_tab() {
    let mut app = open(BODY);
    let generation = app.views[0].generation;
    app.ingest_live(&mut Queue(Vec::new()));
    assert_eq!(app.views[0].generation, generation);
    let line = b"{\"ts\":\"2026-06-01T12:01:00Z\",\"level\":\"error\"}".to_vec();
    let rec = RawRecord {
        source_id: 0,
        line_id: 0,
        ts_micros: 1_780_315_260_000_000,
        severity: severity::ERROR,
        bytes: RecordBytes::Owned(line.clone()),
    };
    app.ingest_live(&mut Queue(vec![rec]));
    assert_eq!(app.views[0].filtered_view, vec![0, 1, 2, 3, 4]);
    assert_eq!(app.views[1].filtered_view, vec![0, 4]);
    assert_eq!(app.views[2].filtered_view, vec![1]);
    assert_eq!(app.engine.line_bytes(4), line.as_slice());
}

#[test]
fn the_screen_is_divided_by_what_there_is() {
    let app = open(BODY);
    assert_eq!(
        app.layout(),
        vec![
            (Pane::Tabs, Height::Length(3)),
            (Pane::Prompt, Height::Length(1)),
            (Pane::Timeline, Height::Length(6)),
            (Pane::Table, Height::Min(3)),
            (Pane::Status, Height::Length(2)),
        ]
    );
    assert_eq!(
        open(b"plain\n").layout(),
        vec![
            (Pane::Prompt, Height::Length(1)),
            (Pane::Table, Height::Min(3)),
            (Pane::Status, Height::Length(2)),
        ]
    );
    assert_eq!(app.table_title(), "mgi-pulse  app.log  [4 rows]");
    let rows = app.status_rows();
    assert_eq!(text_of(&rows[0]), "4 records");
    assert!(text_of(&rows[1]).ends_with("q quit"));
}

#[test]
fn a_click_selects_the_tab_under_it() {
    let mut app = open(BODY);
    let rows = app.tab_bar(0, 0);
    assert_eq!(rows.len(), 3);
    assert!(text_of(&rows[0]).starts_with("┌─────┐"));
    assert!(text_of(&rows[1]).starts_with("│ All │   Error  "));
    let boxes = app.tab_hitboxes.clone();
    assert_eq!(boxes.len(), 5);
    for (x, y, w, tab) in boxes {
        let mut wheel = 0;
        for column in [x, x + w - 1] {
            app.handle(Event::Click { column, row: y }, &mut wheel);
            assert_eq!(app.active_tab, tab);
        }
    }
    let mut wheel = 0;
    app.handle(Event::Click { column: 999, row: 1 }, &mut wheel);
    assert_eq!(app.active_tab, 4);
}

#[test]
fn keys_mean_what_the_table_says() {
    let plain = |c: char| KeyPress {
        code: KeyCode::Char(c),
        control_only: false,
        shift: false,
    };
    assert_eq!(binding(plain('t'), true), Command::Ask(Mode::JumpTime));
    assert_eq!(binding(plain('t'), false), Command::Nothing);
    assert_eq!(binding(plain(';'), true), Command::Ask(Mode::Dsl));
    assert_eq!(binding(plain('?'), true), Command::ToggleStats);
    assert_eq!(binding(plain('x'), true), Command::Nothing);
    assert_eq!(binding(plain('+'), true), Command::ZoomIn);
    let other = KeyPress {
        code: KeyCode::Other,
        control_only: false,
        shift: false,
    };
    assert_eq!(binding(other, true), Command::Nothing);
    let back = KeyPress {
        code: KeyCode::Tab,
        control_only: false,
        shift: true,
    };
    assert_eq!(binding(back, true), Command::PrevTab);
}
