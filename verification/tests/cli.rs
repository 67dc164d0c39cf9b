use mgi_pulse::cli::{
    detect_format, dry_run_summary, field_names, forced_format, intake, parse_format, plan,
    source_label, theme_error, Intake, Plan, MAX_ARRAY_BYTES,
};
use mgi_pulse::engine::format::LogFormat;
use mgi_pulse::engine::indexer::drain;
use mgi_pulse::engine::Engine;
use mgi_pulse::io::file::FileProducer;
use mgi_pulse::theme::resolve;

fn indexed(body: &[u8], format: LogFormat) -> Engine<'_> {
    let mut engine = Engine::new();
    let mut producer = FileProducer::new(body, 0).with_format(format);
    engine.mmaps.push(producer.mmap());
    engine.source_formats.push(format);
    drain(&mut producer, &mut engine);
    engine.indexes.parse_stats.fold(producer.stats());
    engine
}

#[test]
fn every_format_has_its_names() {
    for (name, format) in [
        ("ndjson", LogFormat::Ndjson),
        ("logfmt", LogFormat::Logfmt),
        ("edn", LogFormat::Edn),
        ("python", LogFormat::Python),
        ("syslog", LogFormat::Syslog),
        ("csv", LogFormat::Csv),
        ("tsv", LogFormat::Tsv),
        ("access", LogFormat::Access),
        ("logback", LogFormat::Logback),
        ("log4j", LogFormat::Logback),
        ("java", LogFormat::Logback),
        ("journalctl", LogFormat::Journalctl),
        ("journal", LogFormat::Journalctl),
        ("systemd", LogFormat::Journalctl),
        ("regex", LogFormat::Regex),
    ] {
        assert_eq!(parse_format(name), Ok(format));
    }
    assert_eq!(
        parse_format("protobuf"),
        Err(
            "unknown --format value 'protobuf'; valid: ndjson, logfmt, edn, python, syslog, \
             csv, tsv, access, logback, journalctl, regex"
                .to_string()
        )
    );
}

#[test]
fn a_pattern_implies_its_format() {
    assert_eq!(forced_format(None, false), Ok(None));
    assert_eq!(forced_format(None, true), Ok(Some(LogFormat::Regex)));
    assert_eq!(
        forced_format(Some("edn"), false),
        Ok(Some(LogFormat::Edn))
    );
    assert_eq!(forced_format(Some("edn"), true), Ok(Some(LogFormat::Regex)));
    assert!(forced_format(Some("protobuf"), true).is_err());
}

#[test]
fn theme_error_names_the_value() {
    assert_eq!(
        theme_error("neon"),
        "unknown --theme value 'neon'; valid: dark, light, nocolor"
    );
}

#[test]
fn field_flags_override_one_name_each() {
    assert!(field_names(None, None).is_none());
    let f = field_names(Some("@timestamp"), None).unwrap();
    assert_eq!((f.ts.as_str(), f.level.as_str()), ("@timestamp", "level"));
    let f = field_names(None, Some("severity")).unwrap();
    assert_eq!((f.ts.as_str(), f.level.as_str()), ("ts", "severity"));
}

#[test]
fn sources_are_planned() {
    assert_eq!(plan(&vec![], true, false), Ok(Plan::Usage));
    assert_eq!(plan(&vec![], false, false), Ok(Plan::Stdin));
    assert_eq!(plan(&vec!["-"], true, true), Ok(Plan::Stdin));
    assert_eq!(plan(&vec!["a"], true, false), Ok(Plan::File));
    assert_eq!(plan(&vec!["a"], true, true), Ok(Plan::Follow));
    assert_eq!(plan(&vec!["a", "b"], true, true), Ok(Plan::Merge));
    assert_eq!(
        plan(&vec!["a", "-"], true, false),
        Err(
            "mixing stdin and files in one run is not supported in v0.1; \
             pick either files OR stdin"
                .to_string()
        )
    );
}

#[test]
fn sources_are_labelled() {
    assert_eq!(source_label(Plan::Stdin, &vec!["-"]), "<stdin>");
    assert_eq!(source_label(Plan::File, &vec!["a.log"]), "a.log");
    assert_eq!(source_label(Plan::Follow, &vec!["a.log"]), "a.log (follow)");
    assert_eq!(source_label(Plan::Merge, &vec!["a", "b", "c"]), "a, b, c");
}

#[test]
fn a_probe_votes_by_its_lines() {
    assert_eq!(detect_format(b""), None);
    assert_eq!(detect_format(b"\n\r\n"), None);
    assert_eq!(detect_format(b"{\"a\":1}\n"), Some(LogFormat::Ndjson));
    assert_eq!(
        detect_format(b"a=1 b=2\r\nc=3 d=4\r\n"),
        Some(LogFormat::Logfmt)
    );
    // One vote is not enough.
    assert_eq!(detect_format(b"a=1 b=2\n"), Some(LogFormat::Ndjson));
    // Lines behind the sixty-fourth do not vote.
    let mut probe = b"\n".repeat(64);
    probe.extend_from_slice(b"a=1 b=2\nc=3 d=4\n");
    assert_eq!(detect_format(&probe), None);
}

#[test]
fn a_dry_run_sums_up_the_index() {
    let body = b"{\"ts\":\"2026-06-01T12:00:00Z\",\"level\":\"info\",\"logger\":\"app\"}\n\
                 {\"ts\":\"nope\",\"level\":\"info\",\"logger\":\"app\"}\n\
                 not json\n\
                 {\"level\":\"warn\",\"a\\\"b\":1}\n";
    let mut engine = indexed(body, LogFormat::Ndjson);
    let (first, second) = dry_run_summary(&engine);
    assert_eq!(
        first,
        "indexed 4 records — untimed: 3 (ts missing/bad: 2/1), json errors: 1"
    );
    assert_eq!(
        second,
        "schema: 0 fields scanned (0 records in warmup), auto-columns: []"
    );
    engine.scan_schema();
    let (_, second) = dry_run_summary(&engine);
    let fields = engine.schema.as_ref().unwrap().ordered_fields.len();
    let columns = engine.schema.as_ref().unwrap().auto_columns(8);
    assert_eq!(
        second,
        format!("schema: {fields} fields scanned (4 records in warmup), auto-columns: {columns:?}")
    );
    assert!(second.contains("\"logger\""));
}

#[test]
fn a_file_is_taken_in_by_its_head() {
    assert_eq!(intake(&[0x1f, 0x8b, 8], 10), Intake::Stream);
    assert_eq!(intake(&[0x28, 0xb5, 0x2f, 0xfd], 10), Intake::Stream);
    assert_eq!(intake(b"[{\"a\":1}]", 9), Intake::Array);
    assert_eq!(intake(b"[{\"a\":1}]", MAX_ARRAY_BYTES), Intake::Array);
    assert_eq!(
        intake(b"[{\"a\":1}]", MAX_ARRAY_BYTES + 1),
        Intake::OversizeArray
    );
    assert_eq!(intake(b"{\"a\":1}", 7), Intake::Lines);
    assert_eq!(intake(b"", 0), Intake::Lines);
}

#[test]
fn unknown_format_value_is_rejected() {
    let e = parse_format("protobuf").unwrap_err();
    assert!(e.contains("unknown --format"));
}

#[test]
fn theme_flag_accepts_known_values() {
    for theme in ["dark", "light", "nocolor", "mono"] {
        assert!(resolve(Some(theme), None, None, Some("xterm"), true).is_some());
    }
}

#[test]
fn unknown_theme_value_is_rejected() {
    assert!(resolve(Some("neon"), None, None, Some("xterm"), true).is_none());
    assert!(theme_error("neon").contains("unknown --theme"));
}

#[test]
fn no_args_with_empty_stdin_completes_cleanly() {
    assert_eq!(plan(&vec![], false, false), Ok(Plan::Stdin));
    let mut engine = indexed(b"", LogFormat::Ndjson);
    engine.capture_csv_headers();
    engine.scan_schema();
    assert!(dry_run_summary(&engine).0.starts_with("indexed 0 records"));
}
