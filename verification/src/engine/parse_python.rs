//! Python `logging` default-format parser.
//!
//! The canonical Python `logging.basicConfig()` line shape:
//!
//! ```text
//! 2026-06-01 12:00:00,123 - my.module - INFO - server started
//! 2026-06-01 12:00:01,456 - my.module - ERROR - DB timeout
//! Traceback (most recent call last):
//!   File "app.py", line 42, in main
//!     raise ValueError("bad")
//! ValueError: bad
//! ```
//!
//! The fraction stands behind a comma and the date and time are separated by a
//! space. Traceback lines do not always start with whitespace, so a
//! continuation is any line whose first byte is not a digit.

use vstd::prelude::*;

use crate::scan;
use crate::scan::ByteClass;
use crate::engine::parse;
use crate::engine::parse::{FieldNames, ParseStats, TsOutcome};
use crate::engine::record::severity;
use crate::text;

verus! {

/// Where the level stands, given the index behind the first separator: the
/// trimmed stretch between the second separator and the third (or the end).
pub open spec fn level_part(s: Seq<u8>, after_logger: int) -> Seq<u8> {
    scan::trimmed(
        s.subrange(
            after_logger,
            match scan::dash_at(s, after_logger) {
                Some(i) => i,
                None => s.len() as int,
            },
        ),
    )
}

/// The outcome and severity of a Python log line.
pub open spec fn reading(s: Seq<u8>) -> (TsOutcome, u8) {
    match scan::dash_at(s, 0) {
        None => (TsOutcome::Unparsed, severity::UNKNOWN),
        Some(sep) => match parse::dashed_timestamp(s.subrange(0, sep)) {
            None => (TsOutcome::Malformed, severity::UNKNOWN),
            Some(t) => (
                TsOutcome::Timed(t as i64),
                match scan::dash_at(s, sep + 3) {
                    None => severity::UNKNOWN,
                    Some(sep2) => severity::rank_of(level_part(s, sep2 + 3)),
                },
            ),
        },
    }
}

/// Timestamp and severity of one Python log line.
pub fn ts_and_level(line: &[u8], stats: &mut ParseStats, _fields: Option<&FieldNames>) -> (r: (
    i64,
    u8,
))
    requires
        old(stats).has_room(),
    ensures
        r.0 == reading(line@).0.micros(),
        r.1 == reading(line@).1,
        *final(stats) == old(stats).counting(reading(line@).0),
{
    let sep: usize = match scan::find_dash(line, 0) {
        Some(i) => i,
        None => {
            return (stats.count(TsOutcome::Unparsed), severity::UNKNOWN);
        },
    };
    let ts: i64 = match parse::parse_dashed_timestamp(&line[0..sep]) {
        Some(v) => v,
        None => {
            return (stats.count(TsOutcome::Malformed), severity::UNKNOWN);
        },
    };
    let ts: i64 = stats.count(TsOutcome::Timed(ts));
    let sep2: usize = match scan::find_dash(line, sep + 3) {
        Some(i) => i,
        None => {
            return (ts, severity::UNKNOWN);
        },
    };
    let sep3: usize = match scan::find_dash(line, sep2 + 3) {
        Some(i) => i,
        None => line.len(),
    };
    let level: &[u8] = scan::trim_ascii(&line[sep2 + 3..sep3]);
    (ts, severity::from_bytes(level))
}

/// A line that does not open with a digit continues the record before it; an
/// empty line does not.
pub open spec fn continues(s: Seq<u8>) -> bool {
    s.len() > 0 && !ByteClass::Digit.has(s[0])
}

/// True if `line` is a continuation of a previous Python log record.
pub fn is_continuation(line: &[u8]) -> (r: bool)
    ensures
        r == continues(line@),
{
    line.len() > 0 && !ByteClass::Digit.test(line[0])
}

/// The text of a field: `ts`, `logger`, `level` or `msg`.
pub open spec fn field(s: Seq<u8>, key: Seq<char>) -> Option<Seq<char>> {
    match scan::dash_at(s, 0) {
        None => None,
        Some(sep1) => if key == "ts"@ {
            text::decoded(s.subrange(0, sep1))
        } else {
            match scan::dash_at(s, sep1 + 3) {
                None => None,
                Some(sep2) => if key == "logger"@ {
                    text::decoded(scan::trimmed(s.subrange(sep1 + 3, sep2)))
                } else if key == "level"@ {
                    text::decoded(level_part(s, sep2 + 3))
                } else if key == "msg"@ {
                    match scan::dash_at(s, sep2 + 3) {
                        Some(sep3) => text::decoded(
                            scan::trimmed(s.subrange(sep3 + 3, s.len() as int)),
                        ),
                        None => text::decoded(Seq::empty()),
                    }
                } else {
                    None
                },
            }
        },
    }
}

/// Projection of the well-known fields `ts`, `logger`, `level` and `msg`.
pub fn project_field(line: &[u8], key: &str) -> (r: Option<String>)
    ensures
        text::opt_view(r) == field(line@, key@),
{
    let sep1: usize = match scan::find_dash(line, 0) {
        Some(i) => i,
        None => {
            return None;
        },
    };
    if text::str_eq(key, "ts") {
        return text::decode_owned(&line[0..sep1]);
    }
    let sep2: usize = match scan::find_dash(line, sep1 + 3) {
        Some(i) => i,
        None => {
            return None;
        },
    };
    if text::str_eq(key, "logger") {
        return text::decode_owned(scan::trim_ascii(&line[sep1 + 3..sep2]));
    }
    let third: Option<usize> = scan::find_dash(line, sep2 + 3);
    let sep3: usize = match third {
        Some(i) => i,
        None => line.len(),
    };
    if text::str_eq(key, "level") {
        return text::decode_owned(scan::trim_ascii(&line[sep2 + 3..sep3]));
    }
    if text::str_eq(key, "msg") {
        return match third {
            Some(i) => text::decode_owned(scan::trim_ascii(&line[i + 3..line.len()])),
            None => {
                let empty: &[u8] = &line[0..0];
                assert(empty@ =~= Seq::empty());
                text::decode_owned(empty)
            },
        };
    }
    None
}

/// A line written from its parts.
pub open spec fn written_line(ts: Seq<u8>, logger: Seq<u8>, level: Seq<u8>, msg: Seq<u8>) -> Seq<
    u8,
> {
    let dash = seq![' ' as u8, '-' as u8, ' ' as u8];
    (ts + dash) + ((logger + dash) + ((level + dash) + msg))
}

/// A line gives back what it was written from: the text of each part under its
/// name, the instant of its timestamp and the rank of its level.
pub proof fn law_written_line_is_read(
    ts: Seq<char>,
    logger: Seq<char>,
    level: Seq<char>,
    msg: Seq<char>,
)
    requires
        scan::ends_at_dash(text::enc(ts)),
        scan::ends_at_dash(text::enc(logger)),
        scan::ends_at_dash(text::enc(level)),
        scan::trimmed(text::enc(logger)) == text::enc(logger),
        scan::trimmed(text::enc(level)) == text::enc(level),
        scan::trimmed(text::enc(msg)) == text::enc(msg),
    ensures
        ({
            let s = written_line(
                text::enc(ts),
                text::enc(logger),
                text::enc(level),
                text::enc(msg),
            );
            &&& field(s, "ts"@) == Some(ts)
            &&& field(s, "logger"@) == Some(logger)
            &&& field(s, "level"@) == Some(level)
            &&& field(s, "msg"@) == Some(msg)
            &&& reading(s) == (match parse::dashed_timestamp(text::enc(ts)) {
                Some(t) => (TsOutcome::Timed(t as i64), severity::rank_of(text::enc(level))),
                None => (TsOutcome::Malformed, severity::UNKNOWN),
            })
        }),
{
    lemma_dashes(text::enc(ts), text::enc(logger), text::enc(level), text::enc(msg));
    text::lemma_lossy_of_text(ts);
    text::lemma_lossy_of_text(logger);
    text::lemma_lossy_of_text(level);
    text::lemma_lossy_of_text(msg);
    reveal_strlit("ts");
    reveal_strlit("logger");
    reveal_strlit("level");
    reveal_strlit("msg");
    assert("ts"@.len() == 2 && "logger"@.len() == 6 && "level"@.len() == 5 && "msg"@.len() == 3);
}

/// Where the parts of a written line stand.
proof fn lemma_dashes(a: Seq<u8>, b: Seq<u8>, c: Seq<u8>, d: Seq<u8>)
    requires
        scan::ends_at_dash(a),
        scan::ends_at_dash(b),
        scan::ends_at_dash(c),
    ensures
        ({
            let s = written_line(a, b, c, d);
            let i: int = a.len() as int + 3;
            let j: int = i + b.len() + 3;
            let k: int = j + c.len() + 3;
            &&& scan::dash_at(s, 0) == Some(i - 3)
            &&& scan::dash_at(s, i) == Some(j - 3)
            &&& scan::dash_at(s, j) == Some(k - 3)
            &&& s.subrange(0, i - 3) == a
            &&& s.subrange(i, j - 3) == b
            &&& s.subrange(j, k - 3) == c
            &&& s.subrange(k, s.len() as int) == d
        }),
{
    let dash = seq![' ' as u8, '-' as u8, ' ' as u8];
    let s = written_line(a, b, c, d);
    scan::lemma_whole(s);
    scan::lemma_halves(s, 0, a + dash, (b + dash) + ((c + dash) + d));
    scan::lemma_halves(s, 0, a, dash);
    scan::lemma_dash_behind(s, 0, a);
    let i: int = a.len() as int + 3;
    scan::lemma_halves(s, i, b + dash, (c + dash) + d);
    scan::lemma_halves(s, i, b, dash);
    scan::lemma_dash_behind(s, i, b);
    let j: int = i + b.len() + 3;
    scan::lemma_halves(s, j, c + dash, d);
    scan::lemma_halves(s, j, c, dash);
    scan::lemma_dash_behind(s, j, c);
    let k: int = j + c.len() + 3;
    scan::lemma_stands_subrange(s, 0, a);
    scan::lemma_stands_subrange(s, i, b);
    scan::lemma_stands_subrange(s, j, c);
    scan::lemma_stands_subrange(s, k, d);
}

} // verus!
