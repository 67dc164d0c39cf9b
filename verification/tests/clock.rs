use mgi_pulse::civil::civil_from_days;
use mgi_pulse::clock::{format_micros, format_unix_seconds_utc};
use mgi_pulse::engine::parse::{parse_partial_rfc3339, parse_rfc3339_micros};
use mgi_pulse::engine::record::TS_UNTIMED;
use mgi_pulse::number::decimal_text;
use mgi_pulse::panes::table::format_ts_utc;
use mgi_pulse::panes::timeline::format_micros_short;
use mgi_pulse::text::truncate_padded;

#[test]
fn epoch_and_leap_days_are_dated() {
    assert_eq!(civil_from_days(0), (1970, 1, 1));
    assert_eq!(civil_from_days(-1), (1969, 12, 31));
    assert_eq!(civil_from_days(11_016), (2000, 2, 29));
    assert_eq!(civil_from_days(11_017), (2000, 3, 1));
    assert_eq!(civil_from_days(-25_509), (1900, 2, 28));
    assert_eq!(civil_from_days(-25_508), (1900, 3, 1));
}

#[test]
fn micros_are_written_in_full() {
    assert_eq!(format_micros(0), "1970-01-01T00:00:00.000000");
    assert_eq!(format_micros(-1), "1969-12-31T23:59:59.999999");
    assert_eq!(
        format_micros(1_780_315_200_000_042),
        "2026-06-01T12:00:00.000042"
    );
}

#[test]
fn untimed_is_dashed_out() {
    assert_eq!(format_ts_utc(TS_UNTIMED), "—".repeat(23));
    assert_eq!(format_ts_utc(0), "1970-01-01T00:00:00.000000");
    assert_eq!(format_micros_short(0), "—");
    assert_eq!(format_micros_short(TS_UNTIMED), "—");
    assert_eq!(format_micros_short(1_500_000), "1970-01-01 00:00:01");
}

#[test]
fn written_times_read_back() {
    for t in [1i64, 951_782_399_999_999, 1_780_315_200_000_042, -62_135_596_800_000_000] {
        let mut s = format_micros(t);
        s.push('Z');
        assert_eq!(parse_rfc3339_micros(&s), Some(t));
    }
    for secs in [0i64, 1_780_315_200, 4_102_444_800] {
        assert_eq!(
            parse_rfc3339_micros(&format_unix_seconds_utc(secs)),
            Some(secs * 1_000_000)
        );
    }
}

#[test]
fn written_seconds_sort_as_they_follow() {
    let mut texts = Vec::new();
    for secs in [0i64, 59, 60, 86_399, 86_400, 951_782_400, 1_780_315_200] {
        texts.push(format_unix_seconds_utc(secs));
    }
    let mut sorted = texts.clone();
    sorted.sort();
    assert_eq!(texts, sorted);
}

#[test]
fn offsets_are_subtracted() {
    assert_eq!(
        parse_rfc3339_micros("1970-01-01T02:00:00+02:00"),
        Some(0)
    );
    assert_eq!(
        parse_rfc3339_micros("1970-01-01T00:00:00-01:30"),
        Some(5_400_000_000)
    );
    assert_eq!(parse_rfc3339_micros("1970-01-01T00:00:00"), None);
    assert_eq!(parse_rfc3339_micros("not a time"), None);
}

#[test]
fn prefixes_are_padded() {
    let noon = parse_rfc3339_micros("2026-06-01T12:00:00Z");
    assert_eq!(parse_partial_rfc3339("2026-06-01T12"), noon);
    assert_eq!(parse_partial_rfc3339("2026-06-01T12:00"), noon);
    assert_eq!(
        parse_partial_rfc3339("2026"),
        parse_rfc3339_micros("2026-01-01T00:00:00Z")
    );
    assert_eq!(parse_partial_rfc3339("2026-6"), None);
}

#[test]
fn numbers_are_written_in_decimal() {
    assert_eq!(decimal_text(0), "0");
    assert_eq!(decimal_text(1_024), "1024");
    assert_eq!(decimal_text(u64::MAX), "18446744073709551615");
}

#[test]
fn cells_are_cut_between_characters() {
    assert_eq!(truncate_padded("abc", 5), "abc  ");
    assert_eq!(truncate_padded("abcdef", 3), "abc");
    assert_eq!(truncate_padded("", 2), "  ");
    // Two bytes each: the cut inside the second one moves before it.
    assert_eq!(truncate_padded("éé", 3), "é");
}
