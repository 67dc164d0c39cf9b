//! How single lines are read: what counts as a timestamp, and what `serde_json`
//! makes of a line.

use mgi_pulse::bench::{run_serde_borrow, run_simd_json};
use mgi_pulse::engine::parse::{
    find_slots, parse_rfc3339_micros, pick_slots, read_default, ts_and_level, ParseStats, Slot,
    TsOutcome,
};
use mgi_pulse::engine::parse_journalctl::read_entry;
use mgi_pulse::engine::parse_logback;
use mgi_pulse::engine::record::{severity, TS_UNTIMED};
use mgi_pulse::engine::Engine;
use mgi_pulse::json::{find_members, find_values};

#[test]
fn parts_of_a_timestamp_keep_to_their_ranges() {
    for bad in [
        "2026-03-00T00:00:00Z",
        "2026-00-01T00:00:00Z",
        "2026-13-01T00:00:00Z",
        "2026-03-32T00:00:00Z",
        "2026-02-30T00:00:00Z",
        "2026-03-01T24:00:00Z",
        "2026-03-01T00:60:00Z",
        "2026-03-01T00:00:61Z",
        "2026-03-01T00:00:00+24:00",
        "2026-03-01T00:00:00-01:60",
        "2026-03-01T00:00:00.Z",
    ] {
        assert_eq!(parse_rfc3339_micros(bad), None, "{bad}");
    }
    assert!(parse_rfc3339_micros("2024-02-29T23:59:59Z").is_some());
    assert!(parse_rfc3339_micros("2026-12-31T23:59:60Z").is_some());
    assert!(parse_rfc3339_micros("2026-03-01T00:00:00+23:59").is_some());
}

#[test]
fn a_thread_is_a_balanced_block() {
    let line = b"2026-06-01 12:00:00.123 INFO [pool[1]] c.e.App - up";
    assert_eq!(
        parse_logback::project_field(line, "thread").as_deref(),
        Some("pool[1]")
    );
    assert_eq!(
        parse_logback::project_field(line, "logger").as_deref(),
        Some("c.e.App")
    );
    assert_eq!(parse_logback::project_field(line, "msg").as_deref(), Some("up"));
    let open = b"2026-06-01 12:00:00.123 INFO [pool[1] c.e.App - up";
    assert_eq!(parse_logback::project_field(open, "thread"), None);
    assert_eq!(parse_logback::project_field(open, "logger"), None);
    let mut stats = ParseStats::default();
    assert_eq!(
        parse_logback::ts_and_level(open, &mut stats, None),
        (TS_UNTIMED, severity::UNKNOWN)
    );
    assert_eq!(stats.json_parse_errors, 1);
}

fn reading(line: &[u8]) -> (i64, u8, u64) {
    let mut stats = ParseStats::default();
    let (ts, sev) = ts_and_level(line, &mut stats);
    (ts, sev, stats.json_parse_errors)
}

#[test]
fn a_repeated_field_makes_a_line_unreadable() {
    let refused = (TS_UNTIMED, severity::UNKNOWN, 1);
    assert_eq!(
        reading(br#"{"ts":"1970-01-01T00:00:01Z","ts":"1970-01-01T00:00:02Z"}"#),
        refused
    );
    assert_eq!(reading(br#"{"level":null,"level":"warn"}"#), refused);
    assert_eq!(reading(br#"{"level":"warn","level":"warn"}"#), refused);
    assert_eq!(
        reading(br#"{"a":1,"level":"warn","a":2}"#),
        (TS_UNTIMED, severity::WARN, 0)
    );
}

#[test]
fn an_array_gives_its_first_two_places() {
    assert_eq!(
        reading(br#" ["1970-01-01T00:00:01Z" , "error"] "#),
        (1_000_000, severity::ERROR, 0)
    );
    assert_eq!(
        reading(br#"["1970-01-01T00:00:01Z"]"#),
        (1_000_000, severity::UNKNOWN, 0)
    );
    assert_eq!(reading(b"[null,\"warn\"]"), (TS_UNTIMED, severity::WARN, 0));
    assert_eq!(reading(b"[]"), (TS_UNTIMED, severity::UNKNOWN, 0));
    let refused = (TS_UNTIMED, severity::UNKNOWN, 1);
    assert_eq!(reading(br#"[null,"warn",1]"#), refused);
    assert_eq!(reading(b"[1]"), refused);
    assert_eq!(reading(b"[null,]"), refused);
}

#[test]
fn bytes_that_are_no_text_spoil_only_what_is_read() {
    let refused = (TS_UNTIMED, severity::UNKNOWN, 1);
    assert_eq!(
        reading(b"{\"level\":\"warn\",\"msg\":\"\xff\xfe\"}"),
        (TS_UNTIMED, severity::WARN, 0)
    );
    assert_eq!(reading(b"{\"level\":\"warn\xff\"}"), refused);
    assert_eq!(reading(b"{\"level\":\"warn\",\"m\xff\":1}"), refused);
    assert_eq!(reading(b"[null,\"\xff\"]"), refused);
}

#[test]
fn an_object_is_read_up_to_its_end() {
    let refused = (TS_UNTIMED, severity::UNKNOWN, 1);
    assert_eq!(
        reading(b" {\t\"x\" : {\"level\":\"error\",\"y\":[1,2]} ,\r\"level\" : \"info\" } "),
        (TS_UNTIMED, severity::INFO, 0)
    );
    assert_eq!(reading(br#"{"n":-1.5e3,"level":"info"}"#), (TS_UNTIMED, severity::INFO, 0));
    assert_eq!(
        reading(br#"{"l\u0065vel":"info","m":"\ud800"}"#),
        (TS_UNTIMED, severity::INFO, 0)
    );
    assert_eq!(reading(br#"{"level":"\u0069nfo"}"#), refused);
    assert_eq!(reading(br#"{"level":5}"#), refused);
    assert_eq!(reading(br#"{"level":"info",}"#), refused);
    assert_eq!(reading(br#"{"level":"info"} x"#), refused);
    assert_eq!(reading(b"{\"level\":\"info\"}\x0c"), refused);
    assert_eq!(reading(br#"{"level" "info"}"#), refused);
    assert_eq!(reading(br#"{"level":"info""#), refused);
    assert_eq!(reading(b"\"text\""), refused);
    assert_eq!(reading(b""), refused);
}

#[test]
fn members_and_values_are_found_in_place() {
    let line = br#"{"a": 1, "b\n": "x", "a": [2]}"#;
    let members = find_members(line).unwrap();
    let names: Vec<&str> = members.iter().map(|m| m.0.as_str()).collect();
    let values: Vec<&[u8]> = members.iter().map(|m| m.1).collect();
    assert_eq!(names, vec!["a", "b\n", "a"]);
    assert_eq!(values, vec![&b"1"[..], &b"\"x\""[..], &b"[2]"[..]]);
    assert!(find_values(line).is_none());
    assert_eq!(find_values(b"[1, {}]"), Some(vec![&b"1"[..], &b"{}"[..]]));
    assert!(find_members(b"[1]").is_none());
    assert_eq!(find_members(b"{ }").map(|m| m.len()), Some(0));
}

#[test]
fn slots_decide_the_reading() {
    let time: &[u8] = b"1970-01-01T00:00:01Z";
    assert_eq!(
        read_default(Some((Slot::Text(time), Slot::Text(b"fatal")))),
        (TsOutcome::Timed(1_000_000), severity::FATAL)
    );
    assert_eq!(
        read_default(Some((Slot::Text(b"soon"), Slot::Absent))),
        (TsOutcome::Malformed, severity::UNKNOWN)
    );
    assert_eq!(
        read_default(Some((Slot::Absent, Slot::Absent))),
        (TsOutcome::Missing, severity::UNKNOWN)
    );
    assert_eq!(read_default(None), (TsOutcome::Unparsed, severity::UNKNOWN));
    assert!(find_slots(b"{\"ts\":1}").is_none());
    let members = Some(vec![("level".to_string(), &b"\"warn\""[..])]);
    match pick_slots(&members, &None) {
        Some((Slot::Absent, Slot::Text(level))) => assert_eq!(level, b"warn"),
        _ => panic!("a level and no timestamp"),
    }
}

#[test]
fn borrowed_strategy_takes_what_it_can_read_in_place() {
    let s = run_serde_borrow(
        b"[\"a\",\"info\"]\n[\"a\"]\n{\"ts\":\"a\",\"level\":null}\n\
          {\"ts\":\"a\",\"ts\":\"b\",\"level\":\"info\"}\n\
          {\"ts\":\"a\",\"level\":\"info\",\"m\":\"\xff\"}\n",
    );
    assert_eq!((s.lines, s.info, s.parse_errors), (5, 2, 3));
    assert_eq!((s.ts_chk, s.lv_chk), (2, 8));
}

#[test]
fn simd_strategy_counts_missing_texts_as_empty() {
    let s = run_simd_json(
        b"{\"ts\":\"ab\",\"level\":\"warn\"}\n{\"ts\":\"abc\"}\n{\"level\":7}\n[1]\nnope\n",
    );
    assert_eq!(s.lines, 5);
    assert_eq!((s.warn, s.ts_chk, s.lv_chk), (1, 5, 4));
}

#[test]
fn a_journal_entry_is_read_from_its_texts() {
    assert_eq!(
        read_entry(Some("\"1717235400123456\""), Some("\"3\"")),
        (TsOutcome::Timed(1_717_235_400_123_456), severity::ERROR)
    );
    assert_eq!(
        read_entry(Some("\"soon\""), None),
        (TsOutcome::Malformed, severity::UNKNOWN)
    );
    assert_eq!(read_entry(None, None).0, TsOutcome::Missing);
}

#[test]
fn a_new_engine_has_counted_nothing() {
    let engine = Engine::new();
    assert_eq!(engine.indexes.parse_stats.untimed, 0);
    assert_eq!(engine.indexes.parse_stats.ts_parse_errors, 0);
    assert_eq!(engine.indexes.parse_stats.json_parse_errors, 0);
}
