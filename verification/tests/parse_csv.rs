use mgi_pulse::engine::parse::ParseStats;
use mgi_pulse::engine::parse_csv::{
    delim_vote, project_field_with_header, split_record, ts_and_level_with_header, Delim,
};
use mgi_pulse::engine::record::severity;
use mgi_pulse::engine::record::TS_UNTIMED;

#[test]
fn split_simple_csv() {
    let row = split_record(b"a,b,c", Delim::Comma);
    assert_eq!(row, vec!["a", "b", "c"]);
}

#[test]
fn split_simple_tsv() {
    let row = split_record(b"a\tb\tc", Delim::Tab);
    assert_eq!(row, vec!["a", "b", "c"]);
}

#[test]
fn quoted_field_strips_outer_quotes() {
    let row = split_record(br#""ab","cd"#, Delim::Comma);
    assert_eq!(row, vec!["ab", "cd"]);
}

#[test]
fn escaped_quote_inside_quoted_field() {
    let row = split_record(br#""he said ""hi""","next"#, Delim::Comma);
    assert_eq!(row, vec![r#"he said "hi""#, "next"]);
}

#[test]
fn delimiter_inside_quoted_field_does_not_split() {
    let row = split_record(br#""a, b, c",x"#, Delim::Comma);
    assert_eq!(row, vec!["a, b, c", "x"]);
}

#[test]
fn trailing_empty_field() {
    let row = split_record(b"a,b,", Delim::Comma);
    assert_eq!(row, vec!["a", "b", ""]);
}

#[test]
fn leading_empty_field() {
    let row = split_record(b",b,c", Delim::Comma);
    assert_eq!(row, vec!["", "b", "c"]);
}

#[test]
fn ts_level_from_named_columns() {
    let headers = vec!["id".to_string(), "ts".to_string(), "level".to_string()];
    let mut stats = ParseStats::default();
    let (ts, sev) = ts_and_level_with_header(
        b"1,2026-06-01T12:00:00Z,error",
        Delim::Comma,
        &headers,
        &mut stats,
        None,
    );
    assert!(ts > 0);
    assert_eq!(sev, severity::ERROR);
}

#[test]
fn missing_ts_column_lands_in_untimed() {
    let headers = vec!["id".to_string(), "level".to_string()];
    let mut stats = ParseStats::default();
    let (ts, _) = ts_and_level_with_header(
        b"1,info",
        Delim::Comma,
        &headers,
        &mut stats,
        None,
    );
    assert_eq!(ts, TS_UNTIMED);
    assert_eq!(stats.untimed, 1);
}

#[test]
fn project_named_column() {
    let headers = vec!["a".to_string(), "b".to_string(), "c".to_string()];
    assert_eq!(
        project_field_with_header(b"1,2,3", Delim::Comma, &headers, "b").as_deref(),
        Some("2")
    );
}

#[test]
fn project_positional_fallback_when_header_missing() {
    let headers = vec!["a".to_string(), "b".to_string()];
    // `_2` → second column.
    assert_eq!(
        project_field_with_header(b"x,y,z", Delim::Comma, &headers, "_2").as_deref(),
        Some("y")
    );
    // `_99` out of range → None.
    assert!(project_field_with_header(b"x,y", Delim::Comma, &headers, "_99").is_none());
}

#[test]
fn delim_vote_picks_csv() {
    // Need at least 2 commas to vote.
    assert_eq!(delim_vote(b"a,b,c"), Some(Delim::Comma));
    assert_eq!(delim_vote(b"a,b"), None);
}

#[test]
fn delim_vote_picks_tsv() {
    assert_eq!(delim_vote(b"a\tb\tc"), Some(Delim::Tab));
}

#[test]
fn delim_vote_ignores_delim_inside_quotes() {
    // 4 commas total, 3 of them inside quotes — only 1 outside.
    assert_eq!(delim_vote(br#""a,b,c,d",x"#), None);
}
