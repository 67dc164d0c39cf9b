use mgi_pulse::engine::format::LogFormat;
use mgi_pulse::engine::histogram::Histogram;
use mgi_pulse::engine::indexer::drain;
use mgi_pulse::engine::stats::Stats;
use mgi_pulse::engine::Engine;
use mgi_pulse::io::file::FileProducer;
use mgi_pulse::panes::detail::{body, detail_rows, title};
use mgi_pulse::panes::stats::stats_rows;
use mgi_pulse::panes::table::{columns, table_rows};
use mgi_pulse::panes::timeline::timeline_rows;
use mgi_pulse::panes::Row;
use mgi_pulse::theme::Theme;

fn read(body: &[u8]) -> Engine<'_> {
    let mut engine = Engine::new();
    let mut producer = FileProducer::new(body, 0);
    engine.mmaps.push(producer.mmap());
    engine.source_formats.push(LogFormat::Ndjson);
    drain(&mut producer, &mut engine);
    engine.indexes.parse_stats.fold(producer.stats());
    engine.scan_schema();
    engine
}

const TWO: &[u8] = b"{\"ts\":\"2026-06-01T12:00:00Z\",\"level\":\"error\",\"logger\":\"db\"}\n\
{\"ts\":\"2026-06-01T12:00:09Z\",\"level\":\"info\",\"logger\":\"web\"}\n";

fn text(row: &Row) -> String {
    row.spans.iter().map(|s| s.text.as_str()).collect()
}

#[test]
fn a_table_has_a_header_and_a_row_per_record() {
    let engine = read(TWO);
    let cols = columns(&engine, 100, None);
    assert!(cols.show_ts && cols.show_level);
    assert_eq!(cols.names, vec!["logger".to_string()]);
    let rows = table_rows(&engine, &[0, 1], 0, 1, 100, 10, None, Theme::Dark, &[0]);
    assert_eq!(rows.len(), 3);
    let header = text(&rows[0]);
    for word in ["line", "timestamp", "level", "logger", "raw"] {
        assert!(header.contains(word), "{header}");
    }
    assert_eq!(rows[1].spans[0].text, "★");
    assert!(text(&rows[1]).contains("2026-06-01T12:00:00.000000"));
    assert!(text(&rows[2]).contains("web"));
    assert_eq!(rows[2].style, Theme::Dark.cursor_row_style());
    assert_ne!(rows[1].style, rows[2].style);
}

#[test]
fn a_cap_takes_columns_off_the_table() {
    let engine = read(TWO);
    assert!(columns(&engine, 100, Some(0)).names.is_empty());
    assert!(columns(&engine, 40, None).names.is_empty());
}

#[test]
fn plain_text_has_one_column() {
    let engine = read(b"alpha\nbeta\n");
    let rows = table_rows(&engine, &[0, 1], 0, 0, 40, 10, None, Theme::NoColor, &[]);
    assert!(text(&rows[0]).contains("(plain text)"));
    assert!(text(&rows[2]).trim_end().ends_with("beta"));
}

#[test]
fn a_scrolled_table_starts_at_its_top_line() {
    let engine = read(b"a\nb\nc\nd\n");
    let rows = table_rows(&engine, &[0, 1, 2, 3], 2, 2, 40, 10, None, Theme::Dark, &[]);
    assert_eq!(rows.len(), 3);
    assert!(text(&rows[1]).trim_end().ends_with('c'));
}

#[test]
fn a_timeline_draws_each_band_to_its_own_scale() {
    let engine = read(TWO);
    let h = Histogram::build_over(&engine, &[0, 1], 10);
    let rows = timeline_rows(&h, 10, 5, Theme::Dark, None);
    assert_eq!(rows.len(), 5);
    assert_eq!(text(&rows[0]), "▇         ");
    assert_eq!(text(&rows[1]), "          ");
    assert_eq!(text(&rows[2]), "         ▇");
    assert_eq!(text(&rows[3]), "          ");
    assert_eq!(text(&rows[4]), "2026-06-01 12:00:00  2026-06-01 12:00:09");
    assert!(timeline_rows(&h, 3, 5, Theme::Dark, None).is_empty());
    assert!(timeline_rows(&h, 10, 1, Theme::Dark, None).is_empty());
}

#[test]
fn the_scrub_cursor_reverses_its_column() {
    let engine = read(TWO);
    let h = Histogram::build_over(&engine, &[0, 1], 10);
    let rows = timeline_rows(&h, 10, 5, Theme::Dark, Some(3));
    for row in &rows[..4] {
        let reversed: Vec<usize> = (0..10)
            .filter(|&i| row.spans[i].style.add_modifier.reversed)
            .collect();
        assert_eq!(reversed, vec![3]);
    }
}

#[test]
fn a_timeline_without_times_says_so() {
    let engine = read(b"a\nb\n");
    let h = Histogram::build_over(&engine, &[0, 1], 10);
    let rows = timeline_rows(&h, 40, 5, Theme::Dark, None);
    assert_eq!(text(&rows[0]), " all 2 records untimed (no ts field) ");
    let none = Histogram::build_over(&engine, &[], 10);
    let rows = timeline_rows(&none, 40, 5, Theme::Dark, None);
    assert_eq!(text(&rows[0]), " no records ");
}

#[test]
fn the_overlay_lists_what_the_view_holds() {
    let engine = read(TWO);
    let stats = Stats::build(&engine, &[0, 1], "logger", 8);
    let rows = stats_rows(&stats, 30, 20, Theme::Dark);
    let lines: Vec<String> = rows.iter().map(text).collect();
    assert_eq!(
        lines,
        vec![
            "total: 2",
            " error: 1",
            "  info: 1",
            "",
            "time span:",
            "2026-06-01 12:00:00",
            " →",
            "2026-06-01 12:00:09",
            "",
            "top logger:",
            "1 db",
            "1 web",
        ]
    );
    assert!(stats_rows(&stats, 7, 20, Theme::Dark).is_empty());
    assert!(stats_rows(&stats, 30, 2, Theme::Dark).is_empty());
}

#[test]
fn detail_pretty_prints_json() {
    let engine = read(TWO);
    let lines: Vec<String> = detail_rows(&engine, 1).iter().map(text).collect();
    assert_eq!(
        lines,
        vec![
            "{",
            "  \"level\": \"info\",",
            "  \"logger\": \"web\",",
            "  \"ts\": \"2026-06-01T12:00:09Z\"",
            "}",
            "",
            "Tab to close, Esc to clear filter",
        ]
    );
    assert_eq!(title(7), " detail · line 7 ");
}

#[test]
fn detail_of_a_line_that_is_not_json() {
    assert_eq!(body(None, b"x"), "(non-JSON line)\nx");
    assert_eq!(body(Some(None), b"x"), "x");
    assert_eq!(body(Some(Some("y".to_string())), b"x"), "y");
    let engine = read(
        b"{\"ts\":\"2026-06-01T12:00:00Z\",\"level\":\"info\",\"a\":1}\n\
          {\"ts\":\"2026-06-01T12:00:00Z\",\"level\":\"info\",\"a\":1}\nbroken\n",
    );
    let lines: Vec<String> = detail_rows(&engine, 2).iter().map(text).collect();
    assert_eq!(lines[..2], ["(non-JSON line)".to_string(), "broken".to_string()]);
}

#[test]
fn detail_of_plain_text_is_its_surroundings() {
    let mut body = Vec::new();
    for i in 0..20 {
        body.extend_from_slice(format!("line {i}\n").as_bytes());
    }
    let engine = read(&body);
    let lines: Vec<String> = detail_rows(&engine, 10).iter().map(text).collect();
    assert_eq!(lines.len(), 13);
    assert_eq!(lines[0], "line 5");
    assert_eq!(lines[10], "line 15");
    let top: Vec<String> = detail_rows(&engine, 1).iter().map(text).collect();
    assert_eq!(top[0], "line 0");
    assert_eq!(top[6], "line 6");
}

#[test]
fn a_long_line_is_cut_with_a_note() {
    let mut body = vec![b'x'; 262_144 + 2_048];
    body.push(b'\n');
    let engine = read(&body);
    let rows = detail_rows(&engine, 0);
    assert!(text(&rows[0]).ends_with("x… +2k more"));
}
