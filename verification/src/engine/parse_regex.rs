//! Generic regex-extraction parser.
//!
//! Opens any plain-text log by a pattern with named captures. Each line is
//! matched against the pattern; its captures become fields:
//!
//! - `ts`: timestamp, RFC 3339 or a prefix of it.
//! - `level`: severity name.
//! - any other name: a field for predicates and columns.
//!
//! Lines that do not match land in the untimed bucket with unknown severity.

use vstd::prelude::*;

use crate::engine::parse;
use crate::engine::parse::{FieldNames, ParseStats, TsOutcome};
use crate::engine::record::severity;
use crate::pattern;
use crate::scan;
use crate::text;

verus! {

/// A space in place of the `T` between date and time reads as `T`.
pub open spec fn t_separated(b: Seq<u8>) -> Seq<u8> {
    if b.len() > 10 && b[10] == ' ' as u8 {
        b.update(10, 'T' as u8)
    } else {
        b
    }
}

/// Microseconds of a captured timestamp.
pub open spec fn captured_timestamp(b: Seq<u8>) -> Option<int> {
    match text::decoded(b) {
        Some(s) => parse::padded_timestamp(t_separated(text::enc(text::trimmed(s)))),
        None => None,
    }
}

/// Same prefix padding as the query language's timestamps, with a space
/// accepted between date and time.
fn parse_padded_ts(b: &[u8]) -> (r: Option<i64>)
    ensures
        r is Some <==> captured_timestamp(b@) is Some,
        r matches Some(v) ==> v == captured_timestamp(b@)->0,
{
    match text::from_utf8(b) {
        None => None,
        Some(s) => {
            let mut buf: Vec<u8> = scan::copied(s.trim().as_bytes());
            if buf.len() > 10 && buf[10] == ' ' as u8 {
                buf.set(10, 'T' as u8);
            }
            parse::parse_padded(&buf)
        },
    }
}

/// The outcome and severity of a line, given whether it matched and what its
/// `ts` and `level` groups captured.
pub open spec fn reading(matched: bool, ts: Option<Seq<u8>>, level: Option<Seq<u8>>) -> (
    TsOutcome,
    u8,
) {
    if !matched {
        (TsOutcome::Unparsed, severity::UNKNOWN)
    } else {
        (
            match ts {
                Some(b) => parse::parsed_or_malformed(captured_timestamp(b)),
                None => TsOutcome::Missing,
            },
            match level {
                Some(b) => severity::rank_of(b),
                None => severity::UNKNOWN,
            },
        )
    }
}

/// Read a line from what its groups captured: nothing when the pattern did not
/// match.
pub fn read_captures(ts: Option<Option<&[u8]>>, level: Option<Option<&[u8]>>) -> (r: (TsOutcome, u8))
    ensures
        r == reading(
            ts is Some && level is Some,
            match ts {
                Some(Some(b)) => Some(b@),
                _ => None,
            },
            match level {
                Some(Some(b)) => Some(b@),
                _ => None,
            },
        ),
{
    match (ts, level) {
        (Some(t), Some(l)) => {
            let sev: u8 = match l {
                Some(b) => severity::from_bytes(b),
                None => severity::UNKNOWN,
            };
            match t {
                Some(b) => (parse::timed_or_malformed(parse_padded_ts(b)), sev),
                None => (TsOutcome::Missing, sev),
            }
        },
        _ => (TsOutcome::Unparsed, severity::UNKNOWN),
    }
}

/// The outcome and severity of a line under a pattern.
pub open spec fn pattern_reading(pattern: Seq<char>, line: Seq<u8>) -> (TsOutcome, u8) {
    reading(
        pattern::bytes_matches(pattern, line),
        pattern::bytes_capture(pattern, line, "ts"@),
        pattern::bytes_capture(pattern, line, "level"@),
    )
}

/// Apply `pattern` to `line` and pull out (ts, severity).
pub fn ts_and_level(
    line: &[u8],
    pattern: &regex::bytes::Regex,
    stats: &mut ParseStats,
    _fields: Option<&FieldNames>,
) -> (r: (i64, u8))
    requires
        old(stats).has_room(),
    ensures
        ({
            let (o, sev) = pattern_reading(pattern::bytes_pattern(*pattern), line@);
            r.0 == o.micros() && r.1 == sev && *final(stats) == old(stats).counting(o)
        }),
{
    let (outcome, sev) = read_captures(
        pattern::capture(pattern, line, "ts"),
        pattern::capture(pattern, line, "level"),
    );
    (stats.count(outcome), sev)
}

/// The text of a captured field: a known level by its name, anything else as
/// it was captured.
pub open spec fn shown_capture(key: Seq<char>, captured: Option<Seq<u8>>) -> Option<Seq<char>> {
    match captured {
        None => None,
        Some(b) => if key == "level"@ && severity::rank_of(b) != severity::UNKNOWN {
            Some(severity::name_of(severity::rank_of(b)))
        } else {
            Some(text::lossy(b))
        },
    }
}

/// Show a captured field.
pub fn show_capture(key: &str, captured: Option<&[u8]>) -> (r: Option<String>)
    ensures
        text::opt_view(r) == shown_capture(
            key@,
            match captured {
                Some(b) => Some(b@),
                None => None,
            },
        ),
{
    match captured {
        None => None,
        Some(b) => {
            let sev: u8 = severity::from_bytes(b);
            if text::str_eq(key, "level") && sev != severity::UNKNOWN {
                Some(severity::name(sev).to_owned())
            } else {
                Some(text::from_utf8_lossy(b))
            }
        },
    }
}

/// The text of a field of a line under a pattern.
pub open spec fn field(pattern: Seq<char>, line: Seq<u8>, key: Seq<char>) -> Option<Seq<char>> {
    if pattern::bytes_matches(pattern, line) {
        shown_capture(key, pattern::bytes_capture(pattern, line, key))
    } else {
        None
    }
}

/// Field projection: the captured text for `key` if the pattern matched and
/// has a group of that name. `level` gives the lower-case severity name where
/// the capture is one.
pub fn project_field(line: &[u8], pattern: &regex::bytes::Regex, key: &str) -> (r: Option<String>)
    ensures
        text::opt_view(r) == field(pattern::bytes_pattern(*pattern), line@, key@),
{
    match pattern::capture(pattern, line, key) {
        None => None,
        Some(c) => show_capture(key, c),
    }
}

/// Compile a user-supplied pattern; errors come back as text.
pub fn compile_pattern(src: &str) -> (r: Result<regex::bytes::Regex, String>)
    ensures
        match r {
            Ok(re) => pattern::bytes_regex_error(src@) is None && pattern::bytes_pattern(re)
                == src@,
            Err(e) => pattern::bytes_regex_error(src@) matches Some(t) && e@
                == "regex compile error: "@ + t,
        },
{
    match pattern::compile_bytes(src) {
        Ok(re) => Ok(re),
        Err(t) => Err("regex compile error: ".to_owned().concat(t.as_str())),
    }
}

/// A captured timestamp means what the same text means in a query, with a space
/// between date and time or a `T`.
pub proof fn law_captured_times_are_query_times(t: Seq<char>)
    ensures
        captured_timestamp(text::enc(t)) == parse::partial_rfc3339(t),
{
    text::lemma_lossy_of_text(t);
    let b = text::enc(text::trimmed(t));
    if b.len() > 10 && b[10] == ' ' as u8 {
        let c = b.update(10, 'T' as u8);
        let pad = parse::padding(b.len());
        assert(c + pad =~= (b + pad).update(10, 'T' as u8));
        parse::lemma_separator_does_not_matter(b + pad, c + pad);
    }
}

/// A line that matches has the time of what `ts` captured and the severity of
/// what `level` captured; one that does not match has neither.
pub proof fn law_line_is_read_by_its_captures(p: Seq<char>, line: Seq<u8>)
    ensures
        !pattern::bytes_matches(p, line) ==> pattern_reading(p, line) == (
            TsOutcome::Unparsed,
            severity::UNKNOWN,
        ),
        pattern::bytes_matches(p, line) ==> {
            &&& pattern_reading(p, line).0 == (match pattern::bytes_capture(p, line, "ts"@) {
                Some(b) => match captured_timestamp(b) {
                    Some(t) => TsOutcome::Timed(t as i64),
                    None => TsOutcome::Malformed,
                },
                None => TsOutcome::Missing,
            })
            &&& pattern_reading(p, line).1 == (match pattern::bytes_capture(p, line, "level"@) {
                Some(b) => severity::rank_of(b),
                None => severity::UNKNOWN,
            })
        },
{
}

/// A field is what the group of its name captured; a level that has a name
/// shows by it. A line that does not match has no field.
pub proof fn law_fields_are_captures(p: Seq<char>, line: Seq<u8>, key: Seq<char>, b: Seq<u8>)
    requires
        pattern::bytes_capture(p, line, key) == Some(b),
    ensures
        !pattern::bytes_matches(p, line) ==> field(p, line, key) is None,
        pattern::bytes_matches(p, line) && key != "level"@ ==> field(p, line, key) == Some(
            text::lossy(b),
        ),
        pattern::bytes_matches(p, line) && key == "level"@ && severity::rank_of(b)
            != severity::UNKNOWN ==> field(p, line, key) == Some(
            severity::name_of(severity::rank_of(b)),
        ),
        pattern::bytes_matches(p, line) && severity::rank_of(b) == severity::UNKNOWN ==> field(
            p,
            line,
            key,
        ) == Some(text::lossy(b)),
{
}

} // verus!
