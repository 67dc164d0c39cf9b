//! Java logback / log4j2 default-format parser.
//!
//! Canonical shapes covered:
//!
//! ```text
//! 2026-06-01 12:00:00.123 INFO  [main] com.example.App - server started
//! 2026-06-01 12:00:01,456 ERROR [http-nio-8080-exec-1] c.e.Controller - DB timeout
//! ```
//!
//! - The token behind the timestamp is the level.
//! - The thread name is wrapped in `[brackets]` and may contain spaces and
//!   balanced brackets; it may be absent.
//! - The logger is everything up to the next ` - `, the message everything
//!   after it. Without a ` - ` the whole tail is the message.
//! - Stack-trace lines do not start with a digit, so they fold into the record
//!   before them.

use vstd::prelude::*;

use crate::scan;
use crate::scan::ByteClass;
use crate::engine::parse;
use crate::engine::parse::{FieldNames, ParseStats, TsOutcome};
use crate::engine::record::severity;
use crate::text;

verus! {

/// The fields of a line.
pub struct Header {
    pub ts_raw: Seq<u8>,
    pub level: Seq<u8>,
    pub thread: Seq<u8>,
    pub logger: Seq<u8>,
    pub msg: Seq<u8>,
}

/// Where a timestamp of at least 19 bytes ends: behind an optional fraction.
pub open spec fn timestamp_end(s: Seq<u8>) -> int {
    if s.len() > 19 && (s[19] == '.' as u8 || s[19] == ',' as u8) {
        scan::run_end(s, 20, ByteClass::Digit)
    } else {
        19
    }
}

/// Index of the bracket that closes the outermost of `depth` open ones, from
/// `i` on.
pub open spec fn closing_bracket(s: Seq<u8>, i: int, depth: int) -> Option<int>
    decreases s.len() - i,
{
    if !(0 <= i < s.len()) {
        None
    } else if s[i] == '[' as u8 {
        closing_bracket(s, i + 1, depth + 1)
    } else if s[i] != ']' as u8 {
        closing_bracket(s, i + 1, depth)
    } else if depth > 1 {
        closing_bracket(s, i + 1, depth - 1)
    } else {
        Some(i)
    }
}

/// The thread block at `i`, with the index of the logger behind it; nothing
/// when no bracket balances the opening one.
pub open spec fn thread_at(s: Seq<u8>, i: int) -> Option<(Seq<u8>, int)> {
    if i < s.len() && s[i] == '[' as u8 {
        match closing_bracket(s, i + 1, 1) {
            Some(e) => Some(
                (s.subrange(i + 1, e), scan::run_end(s, e + 1, ByteClass::Only(' ' as u8))),
            ),
            None => None,
        }
    } else {
        Some((Seq::empty(), i))
    }
}

/// The fields of a line, or nothing when it is malformed.
pub open spec fn header(s: Seq<u8>) -> Option<Header> {
    let ts_end = timestamp_end(s);
    if s.len() < 20 || s[10] != ' ' as u8 || s[4] != '-' as u8 || s[7] != '-' as u8 || ts_end
        >= s.len() || s[ts_end] != ' ' as u8 {
        None
    } else {
        let level_end = scan::run_end(s, ts_end + 1, ByteClass::Alpha);
        if level_end == ts_end + 1 {
            None
        } else {
            match thread_at(s, scan::run_end(s, level_end, ByteClass::Only(' ' as u8))) {
                None => None,
                Some((thread, at)) => {
                    let (logger, msg) = match scan::dash_at(s, at) {
                        Some(p) => (
                            scan::trimmed(s.subrange(at, p)),
                            s.subrange(p + 3, s.len() as int),
                        ),
                        None => (Seq::empty(), s.subrange(at, s.len() as int)),
                    };
                    Some(
                        Header {
                            ts_raw: s.subrange(0, ts_end),
                            level: s.subrange(ts_end + 1, level_end),
                            thread,
                            logger,
                            msg,
                        },
                    )
                },
            }
        }
    }
}

struct HeaderRef<'a> {
    ts_raw: &'a [u8],
    level: &'a [u8],
    thread: &'a [u8],
    logger: &'a [u8],
    msg: &'a [u8],
}

impl<'a> HeaderRef<'a> {
    spec fn model(self) -> Header {
        Header {
            ts_raw: self.ts_raw@,
            level: self.level@,
            thread: self.thread@,
            logger: self.logger@,
            msg: self.msg@,
        }
    }
}

fn find_timestamp_end(line: &[u8]) -> (r: usize)
    requires
        line@.len() >= 20,
    ensures
        r == timestamp_end(line@),
        19 <= r <= line@.len(),
{
    if line[19] == '.' as u8 || line[19] == ',' as u8 {
        scan::skip(line, 20, ByteClass::Digit)
    } else {
        19
    }
}

fn find_closing_bracket(line: &[u8], from: usize) -> (r: Option<usize>)
    requires
        1 <= from <= line@.len(),
    ensures
        match r {
            Some(e) => closing_bracket(line@, from as int, 1) == Some(e as int) && from <= e
                < line@.len(),
            None => closing_bracket(line@, from as int, 1) is None,
        },
{
    let mut depth: usize = 1;
    let mut i: usize = from;
    while i < line.len()
        invariant
            1 <= from <= i <= line@.len(),
            1 <= depth <= i - from + 1,
            closing_bracket(line@, from as int, 1) == closing_bracket(
                line@,
                i as int,
                depth as int,
            ),
        decreases line@.len() - i,
    {
        if line[i] == '[' as u8 {
            depth = depth + 1;
        } else if line[i] == ']' as u8 {
            if depth == 1 {
                return Some(i);
            }
            depth = depth - 1;
        }
        i = i + 1;
    }
    None
}

/// Parse a line into its fields. `None` on malformed input.
fn parse_header<'a>(line: &'a [u8]) -> (r: Option<HeaderRef<'a>>)
    ensures
        match r {
            Some(h) => header(line@) == Some(h.model()),
            None => header(line@) is None,
        },
{
    if line.len() < 20 {
        return None;
    }
    if line[10] != ' ' as u8 || line[4] != '-' as u8 || line[7] != '-' as u8 {
        return None;
    }
    let ts_end: usize = find_timestamp_end(line);
    if ts_end >= line.len() || line[ts_end] != ' ' as u8 {
        return None;
    }
    let level_end: usize = scan::skip(line, ts_end + 1, ByteClass::Alpha);
    if level_end == ts_end + 1 {
        return None;
    }
    let none: &'a [u8] = &line[0..0];
    assert(none@ =~= Seq::empty());
    let i: usize = scan::skip(line, level_end, ByteClass::Only(' ' as u8));
    let mut thread: &'a [u8] = none;
    let mut at: usize = i;
    if i < line.len() && line[i] == '[' as u8 {
        let e: usize = match find_closing_bracket(line, i + 1) {
            Some(e) => e,
            None => {
                return None;
            },
        };
        thread = &line[i + 1..e];
        at = scan::skip(line, e + 1, ByteClass::Only(' ' as u8));
    }
    let (logger, msg) = match scan::find_dash(line, at) {
        Some(p) => (scan::trim_ascii(&line[at..p]), &line[p + 3..line.len()]),
        None => (none, &line[at..line.len()]),
    };
    Some(
        HeaderRef {
            ts_raw: &line[0..ts_end],
            level: &line[ts_end + 1..level_end],
            thread,
            logger,
            msg,
        },
    )
}

/// The outcome and severity of a logback line.
pub open spec fn reading(s: Seq<u8>) -> (TsOutcome, u8) {
    match header(s) {
        None => (TsOutcome::Unparsed, severity::UNKNOWN),
        Some(h) => (
            parse::parsed_or_malformed(parse::dashed_timestamp(h.ts_raw)),
            severity::rank_of(h.level),
        ),
    }
}

/// Timestamp and severity of a line.
pub fn ts_and_level(line: &[u8], stats: &mut ParseStats, _fields: Option<&FieldNames>) -> (r: (
    i64,
    u8,
))
    requires
        old(stats).has_room(),
    ensures
        r.0 == reading(line@).0.micros(),
        r.1 == reading(line@).1,
        *final(stats) == old(stats).counting(reading(line@).0),
{
    match parse_header(line) {
        None => (stats.count(TsOutcome::Unparsed), severity::UNKNOWN),
        Some(h) => {
            let sev: u8 = severity::from_bytes(h.level);
            let outcome: TsOutcome = parse::timed_or_malformed(
                parse::parse_dashed_timestamp(h.ts_raw),
            );
            (stats.count(outcome), sev)
        },
    }
}

/// The text of a field. An empty part other than `msg` counts as absent.
pub open spec fn field(s: Seq<u8>, key: Seq<char>) -> Option<Seq<char>> {
    match header(s) {
        None => None,
        Some(h) => if key == "level"@ {
            nonempty(h.level)
        } else if key == "thread"@ {
            nonempty(h.thread)
        } else if key == "logger"@ {
            nonempty(h.logger)
        } else if key == "msg"@ {
            Some(text::lossy(h.msg))
        } else if key == "ts"@ {
            nonempty(h.ts_raw)
        } else {
            None
        },
    }
}

pub open spec fn nonempty(b: Seq<u8>) -> Option<Seq<char>> {
    if b.len() == 0 {
        None
    } else {
        Some(text::lossy(b))
    }
}

fn nonempty_text(b: &[u8]) -> (r: Option<String>)
    ensures
        text::opt_view(r) == nonempty(b@),
{
    if b.len() == 0 {
        None
    } else {
        Some(text::from_utf8_lossy(b))
    }
}

/// Field projection. Recognised keys: `level`, `thread`, `logger`, `msg`,
/// `ts`.
pub fn project_field(line: &[u8], key: &str) -> (r: Option<String>)
    ensures
        text::opt_view(r) == field(line@, key@),
{
    let h: HeaderRef = match parse_header(line) {
        Some(h) => h,
        None => {
            return None;
        },
    };
    if text::str_eq(key, "level") {
        nonempty_text(h.level)
    } else if text::str_eq(key, "thread") {
        nonempty_text(h.thread)
    } else if text::str_eq(key, "logger") {
        nonempty_text(h.logger)
    } else if text::str_eq(key, "msg") {
        Some(text::from_utf8_lossy(h.msg))
    } else if text::str_eq(key, "ts") {
        nonempty_text(h.ts_raw)
    } else {
        None
    }
}

/// A line that does not open with a digit continues the record before it; an
/// empty line does not.
pub open spec fn continues(s: Seq<u8>) -> bool {
    s.len() > 0 && !ByteClass::Digit.has(s[0])
}

/// Stack-trace continuation rule. Covers `\tat com.example...`,
/// `Caused by: ...`, `\t... 12 more`, etc.
pub fn is_continuation(line: &[u8]) -> (r: bool)
    ensures
        r == continues(line@),
{
    line.len() > 0 && !ByteClass::Digit.test(line[0])
}

/// One of the level names that logback writes.
pub open spec fn is_level_name(b: Seq<u8>) -> bool {
    b == text::enc("INFO"@) || b == text::enc("WARN"@) || b == text::enc("WARNING"@) || b
        == text::enc("ERROR"@) || b == text::enc("DEBUG"@) || b == text::enc("TRACE"@) || b
        == text::enc("FATAL"@) || b == text::enc("SEVERE"@)
}

/// `YYYY-MM-DD HH:MM:SS`, an optional fraction, a space and a level name.
pub open spec fn has_shape(s: Seq<u8>) -> bool {
    let i = timestamp_end(s);
    &&& s.len() >= 25
    &&& s[4] == '-' as u8
    &&& s[7] == '-' as u8
    &&& s[10] == ' ' as u8
    &&& s[13] == ':' as u8
    &&& s[16] == ':' as u8
    &&& i < s.len()
    &&& s[i] == ' ' as u8
    &&& is_level_name(s.subrange(i + 1, scan::run_end(s, i + 1, ByteClass::Alpha)))
}

/// Heuristic for format detection.
pub fn looks_like_logback(line: &[u8]) -> (r: bool)
    ensures
        r == has_shape(line@),
{
    if line.len() < 25 {
        return false;
    }
    if line[4] != '-' as u8 || line[7] != '-' as u8 || line[10] != ' ' as u8 || line[13]
        != ':' as u8 || line[16] != ':' as u8 {
        return false;
    }
    let i: usize = find_timestamp_end(line);
    if i >= line.len() || line[i] != ' ' as u8 {
        return false;
    }
    let e: usize = scan::skip(line, i + 1, ByteClass::Alpha);
    let lvl: &[u8] = &line[i + 1..e];
    scan::bytes_eq(lvl, "INFO".as_bytes()) || scan::bytes_eq(lvl, "WARN".as_bytes())
        || scan::bytes_eq(lvl, "WARNING".as_bytes()) || scan::bytes_eq(lvl, "ERROR".as_bytes())
        || scan::bytes_eq(lvl, "DEBUG".as_bytes()) || scan::bytes_eq(lvl, "TRACE".as_bytes())
        || scan::bytes_eq(lvl, "FATAL".as_bytes()) || scan::bytes_eq(lvl, "SEVERE".as_bytes())
}

/// The thread block of a line, with the space behind it; or none.
pub open spec fn written_thread(thread: Option<Seq<u8>>) -> Seq<u8> {
    match thread {
        Some(t) => seq!['[' as u8] + (t + seq![']' as u8, ' ' as u8]),
        None => Seq::empty(),
    }
}

/// A line written from its parts.
pub open spec fn written_line(
    ts: Seq<u8>,
    level: Seq<u8>,
    thread: Option<Seq<u8>>,
    logger: Seq<u8>,
    msg: Seq<u8>,
) -> Seq<u8> {
    let dash = seq![' ' as u8, '-' as u8, ' ' as u8];
    ts + (seq![' ' as u8] + (level + (seq![' ' as u8] + (written_thread(thread) + ((logger + dash)
        + msg)))))
}

/// A timestamp that a line can open with.
pub open spec fn is_stamp(ts: Seq<u8>) -> bool {
    &&& ts.len() == 19 || (20 < ts.len() && (ts[19] == '.' as u8 || ts[19] == ',' as u8))
    &&& forall|k: int| 20 <= k < ts.len() ==> ByteClass::Digit.has(#[trigger] ts[k])
    &&& ts[4] == '-' as u8 && ts[7] == '-' as u8 && ts[10] == ' ' as u8
}

/// A line gives back what it was written from: timestamp, level, thread, logger
/// and message, with the thread block or without it.
pub proof fn law_written_line_is_read(
    ts: Seq<u8>,
    level: Seq<u8>,
    thread: Option<Seq<u8>>,
    logger: Seq<u8>,
    msg: Seq<u8>,
)
    requires
        is_stamp(ts),
        level.len() > 0,
        forall|k: int| 0 <= k < level.len() ==> scan::is_alpha(#[trigger] level[k]),
        thread matches Some(t) ==> forall|k: int|
            0 <= k < t.len() ==> #[trigger] t[k] != '[' as u8 && t[k] != ']' as u8,
        logger.len() > 0,
        logger[0] != '[' as u8,
        scan::trimmed(logger) == logger,
        scan::ends_at_dash(logger),
    ensures
        header(written_line(ts, level, thread, logger, msg)) == Some(
            Header {
                ts_raw: ts,
                level,
                thread: match thread {
                    Some(t) => t,
                    None => Seq::empty(),
                },
                logger,
                msg,
            },
        ),
{
    let s = written_line(ts, level, thread, logger, msg);
    let dash = seq![' ' as u8, '-' as u8, ' ' as u8];
    let sp = seq![' ' as u8];
    let rest = written_thread(thread) + ((logger + dash) + msg);
    scan::lemma_whole(s);
    scan::lemma_halves(s, 0, ts, sp + (level + (sp + rest)));
    let n: int = ts.len() as int;
    scan::lemma_halves(s, n, sp, level + (sp + rest));
    scan::lemma_stands_byte(s, n, sp, 0);
    scan::lemma_halves(s, n + 1, level, sp + rest);
    let e: int = n + 1 + level.len();
    scan::lemma_halves(s, e, sp, rest);
    scan::lemma_stands_byte(s, e, sp, 0);
    lemma_stamp_is_read(s, ts);
    scan::lemma_stands_run(s, n + 1, level, ByteClass::Alpha);
    scan::lemma_stands_subrange(s, n + 1, level);
    lemma_logger_starts_clean(logger);
    lemma_thread_is_read(s, e + 1, thread, logger, msg);
    let at: int = e + 1 + written_thread(thread).len();
    assert(scan::run_end(s, e, ByteClass::Only(' ' as u8)) == e + 1) by {
        scan::lemma_run_end_at(s, e, e + 1, ByteClass::Only(' ' as u8));
    }
    scan::lemma_halves(s, e + 1, written_thread(thread), (logger + dash) + msg);
    scan::lemma_halves(s, at, logger + dash, msg);
    scan::lemma_halves(s, at, logger, dash);
    scan::lemma_dash_behind(s, at, logger);
    scan::lemma_stands_subrange(s, at, logger);
    scan::lemma_stands_subrange(s, at + logger.len() + 3, msg);
}

proof fn lemma_logger_starts_clean(logger: Seq<u8>)
    requires
        logger.len() > 0,
        scan::trimmed(logger) == logger,
    ensures
        logger[0] != ' ' as u8,
{
    if logger[0] == ' ' as u8 {
        let lo = scan::run_end(logger, 0, ByteClass::Whitespace);
        scan::lemma_run_end(logger, 0, ByteClass::Whitespace);
        scan::lemma_run_end(logger, 1, ByteClass::Whitespace);
        assert(lo >= 1);
        scan::lemma_run_start_range(logger, lo, logger.len() as int, ByteClass::Whitespace);
    }
}

proof fn lemma_stamp_is_read(s: Seq<u8>, ts: Seq<u8>)
    requires
        is_stamp(ts),
        scan::stands(s, 0, ts),
        ts.len() < s.len(),
        s[ts.len() as int] == ' ' as u8,
    ensures
        timestamp_end(s) == ts.len(),
        s.subrange(0, ts.len() as int) == ts,
        s[4] == '-' as u8,
        s[7] == '-' as u8,
        s[10] == ' ' as u8,
{
    scan::lemma_stands_subrange(s, 0, ts);
    scan::lemma_stands_byte(s, 0, ts, 4);
    scan::lemma_stands_byte(s, 0, ts, 7);
    scan::lemma_stands_byte(s, 0, ts, 10);
    if ts.len() > 19 {
        scan::lemma_stands_byte(s, 0, ts, 19);
        assert forall|k: int| 20 <= k < ts.len() implies ByteClass::Digit.has(#[trigger] s[k]) by {
            assert(ByteClass::Digit.has(ts[k]));
            scan::lemma_stands_byte(s, 0, ts, k);
        }
        scan::lemma_run_end_at(s, 20, ts.len() as int, ByteClass::Digit);
    }
}

proof fn lemma_closing(s: Seq<u8>, i: int, t: Seq<u8>)
    requires
        scan::stands(s, i, t + seq![']' as u8]),
        forall|k: int| 0 <= k < t.len() ==> #[trigger] t[k] != '[' as u8 && t[k] != ']' as u8,
    ensures
        closing_bracket(s, i, 1) == Some(i + t.len()),
    decreases t.len(),
{
    let end = seq![']' as u8];
    if t.len() == 0 {
        assert(t + end =~= end);
        scan::lemma_stands_byte(s, i, end, 0);
    } else {
        let one = seq![t[0]];
        let rest = t.skip(1);
        assert(t + end =~= one + (rest + end));
        scan::lemma_halves(s, i, one, rest + end);
        scan::lemma_stands_byte(s, i, one, 0);
        assert forall|k: int| 0 <= k < rest.len() implies #[trigger] rest[k] != '[' as u8 && rest[k]
            != ']' as u8 by {
            assert(rest[k] == t[k + 1]);
        }
        lemma_closing(s, i + 1, rest);
    }
}

proof fn lemma_thread_is_read(
    s: Seq<u8>,
    i: int,
    thread: Option<Seq<u8>>,
    logger: Seq<u8>,
    msg: Seq<u8>,
)
    requires
        thread matches Some(t) ==> forall|k: int|
            0 <= k < t.len() ==> #[trigger] t[k] != '[' as u8 && t[k] != ']' as u8,
        logger.len() > 0,
        logger[0] != '[' as u8,
        logger[0] != ' ' as u8,
        scan::stands(
            s,
            i,
            written_thread(thread) + ((logger + seq![' ' as u8, '-' as u8, ' ' as u8]) + msg),
        ),
    ensures
        thread_at(s, i) == Some(
            (
                match thread {
                    Some(t) => t,
                    None => Seq::empty(),
                },
                i + written_thread(thread).len(),
            ),
        ),
        0 <= i < s.len(),
        s[i] != ' ' as u8,
{
    let dash = seq![' ' as u8, '-' as u8, ' ' as u8];
    let block = written_thread(thread);
    scan::lemma_halves(s, i, block, (logger + dash) + msg);
    let at: int = i + block.len();
    scan::lemma_halves(s, at, logger + dash, msg);
    scan::lemma_halves(s, at, logger, dash);
    scan::lemma_stands_byte(s, at, logger, 0);
    if let Some(t) = thread {
        let open = seq!['[' as u8];
        let close = seq![']' as u8, ' ' as u8];
        scan::lemma_halves(s, i, open, t + close);
        scan::lemma_stands_byte(s, i, open, 0);
        scan::lemma_halves(s, i + 1, t, close);
        scan::lemma_stands_subrange(s, i + 1, t);
        let e: int = i + 1 + t.len();
        scan::lemma_stands_byte(s, e, close, 1);
        assert(t + close =~= (t + seq![']' as u8]) + seq![' ' as u8]);
        scan::lemma_halves(s, i + 1, t + seq![']' as u8], seq![' ' as u8]);
        lemma_closing(s, i + 1, t);
        scan::lemma_run_end_at(s, e + 1, e + 2, ByteClass::Only(' ' as u8));
    }
}

/// What a written line is read as: the instant of its timestamp, the rank of
/// its level, and each part under its name. A missing thread has no text.
pub proof fn law_parts_have_their_names(s: Seq<u8>, h: Header)
    requires
        header(s) == Some(h),
    ensures
        reading(s).0 == (match parse::dashed_timestamp(h.ts_raw) {
            Some(t) => TsOutcome::Timed(t as i64),
            None => TsOutcome::Malformed,
        }),
        reading(s).1 == severity::rank_of(h.level),
        field(s, "msg"@) == Some(text::lossy(h.msg)),
        h.ts_raw.len() > 0 ==> field(s, "ts"@) == Some(text::lossy(h.ts_raw)),
        h.level.len() > 0 ==> field(s, "level"@) == Some(text::lossy(h.level)),
        h.logger.len() > 0 ==> field(s, "logger"@) == Some(text::lossy(h.logger)),
        h.thread.len() > 0 ==> field(s, "thread"@) == Some(text::lossy(h.thread)),
        h.thread.len() == 0 ==> field(s, "thread"@) is None,
        h.logger.len() == 0 ==> field(s, "logger"@) is None,
{
    reveal_strlit("ts");
    reveal_strlit("level");
    reveal_strlit("thread");
    reveal_strlit("logger");
    reveal_strlit("msg");
    assert("ts"@.len() == 2 && "level"@.len() == 5 && "thread"@.len() == 6 && "logger"@.len() == 6
        && "msg"@.len() == 3);
    assert("thread"@[0] == 't' && "logger"@[0] == 'l');
}

} // verus!
