//! systemd journal `journalctl -o json` parser.
//!
//! Reference: <https://systemd.io/JOURNAL_EXPORT_FORMATS/>.
//!
//! Each line is a JSON object:
//!
//! ```json
//! {"__REALTIME_TIMESTAMP": "1717235400123456", "PRIORITY": "6", "MESSAGE": "Started session."}
//! ```
//!
//! - `__REALTIME_TIMESTAMP` is microseconds since the Unix epoch, as a string
//!   or a number.
//! - `PRIORITY` is a syslog level, 0 to 7.

use vstd::prelude::*;

use crate::scan;
use crate::scan::ByteClass;
use crate::engine::parse::{FieldNames, ParseStats, TsOutcome};
use crate::engine::parse_syslog;
use crate::engine::record::severity;
use crate::json;
use crate::schema;
use crate::text;

verus! {

/// Rank of a priority text: a single digit `0` to `7`.
pub open spec fn priority_rank(b: Seq<u8>) -> u8 {
    if b.len() == 1 && '0' as u8 <= b[0] <= '7' as u8 {
        parse_syslog::syslog_rank(b[0] - '0' as u8)
    } else {
        severity::UNKNOWN
    }
}

fn map_priority(b: &[u8]) -> (r: u8)
    ensures
        r == priority_rank(b@),
{
    if b.len() == 1 && '0' as u8 <= b[0] && b[0] <= '7' as u8 {
        parse_syslog::map_syslog_severity((b[0] - '0' as u8) as u64)
    } else {
        severity::UNKNOWN
    }
}

/// A decimal integer with an optional sign, within 64 bits.
pub open spec fn signed_decimal(b: Seq<u8>) -> Option<int> {
    let negative = b.len() > 0 && b[0] == '-' as u8;
    let from = if b.len() > 0 && (b[0] == '-' as u8 || b[0] == '+' as u8) {
        1int
    } else {
        0
    };
    let digits = b.subrange(from, b.len() as int);
    let value = if negative {
        -(scan::decimal(digits) as int)
    } else {
        scan::decimal(digits) as int
    };
    if digits.len() > 0 && scan::all_digits(digits) && i64::MIN <= value <= i64::MAX {
        Some(value)
    } else {
        None
    }
}

fn parse_signed(b: &[u8]) -> (r: Option<i64>)
    ensures
        r is Some <==> signed_decimal(b@) is Some,
        r matches Some(v) ==> v == signed_decimal(b@)->0,
{
    if b.len() == 0 {
        return None;
    }
    let negative: bool = b[0] == '-' as u8;
    let from: usize = if negative || b[0] == '+' as u8 {
        1
    } else {
        0
    };
    if from >= b.len() {
        return None;
    }
    let max: u64 = if negative {
        0x8000_0000_0000_0000
    } else {
        0x7fff_ffff_ffff_ffff
    };
    match scan::parse_decimal(&b[from..b.len()], max) {
        None => None,
        Some(v) => {
            if !negative {
                Some(v as i64)
            } else if v == 0x8000_0000_0000_0000 {
                Some(i64::MIN)
            } else {
                Some(-(v as i64))
            }
        },
    }
}

/// The outcome and severity of a journal entry, given the raw values of its
/// timestamp and its priority.
pub open spec fn entry_reading(ts: Option<Seq<char>>, priority: Option<Seq<char>>) -> (
    TsOutcome,
    u8,
) {
    (
        match ts {
            None => TsOutcome::Missing,
            Some(raw) => crate::engine::parse::parsed_or_malformed(
                signed_decimal(json::unquoted(text::enc(raw))),
            ),
        },
        match priority {
            Some(raw) => priority_rank(json::unquoted(text::enc(raw))),
            None => severity::UNKNOWN,
        },
    )
}

/// Read a journal entry from the raw values of its timestamp and its priority.
pub fn read_entry(ts: Option<&str>, priority: Option<&str>) -> (r: (TsOutcome, u8))
    ensures
        r == entry_reading(
            match ts {
                Some(t) => Some(t@),
                None => None,
            },
            match priority {
                Some(p) => Some(p@),
                None => None,
            },
        ),
{
    let outcome: TsOutcome = match ts {
        None => TsOutcome::Missing,
        Some(raw) => crate::engine::parse::timed_or_malformed(
            parse_signed(json::unquote(raw.as_bytes())),
        ),
    };
    let sev: u8 = match priority {
        Some(raw) => map_priority(json::unquote(raw.as_bytes())),
        None => severity::UNKNOWN,
    };
    (outcome, sev)
}

/// The outcome and severity of a journal entry.
pub open spec fn reading(line: Seq<u8>) -> (TsOutcome, u8) {
    entry_reading(
        schema::raw_field(line, "__REALTIME_TIMESTAMP"@),
        schema::raw_field(line, "PRIORITY"@),
    )
}

/// Timestamp and severity of a journal entry.
pub fn ts_and_level(line: &[u8], stats: &mut ParseStats, _fields: Option<&FieldNames>) -> (r: (
    i64,
    u8,
))
    requires
        old(stats).has_room(),
    ensures
        r.0 == reading(line@).0.micros(),
        r.1 == reading(line@).1,
        *final(stats) == old(stats).counting(reading(line@).0),
{
    let (outcome, sev) = read_entry(
        schema::project_field(line, "__REALTIME_TIMESTAMP"),
        schema::project_field(line, "PRIORITY"),
    );
    (stats.count(outcome), sev)
}

/// The journal field that a name stands for.
pub open spec fn journal_key(key: Seq<char>) -> Seq<char> {
    if key == "msg"@ {
        "MESSAGE"@
    } else if key == "host"@ {
        "_HOSTNAME"@
    } else if key == "unit"@ {
        "_SYSTEMD_UNIT"@
    } else if key == "ident"@ {
        "SYSLOG_IDENTIFIER"@
    } else {
        key
    }
}

/// The text of a field. `level` is the name of the mapped priority; other
/// names go through their journal alias.
pub open spec fn field(line: Seq<u8>, key: Seq<char>) -> Option<Seq<char>> {
    if key == "level"@ {
        match schema::raw_field(line, "PRIORITY"@) {
            Some(raw) => Some(
                severity::name_of(priority_rank(json::unquoted(text::enc(raw)))),
            ),
            None => None,
        }
    } else {
        match schema::raw_field(line, journal_key(key)) {
            Some(raw) => Some(schema::unquoted_text(raw)),
            None => None,
        }
    }
}

/// Field projection: `msg`, `level`, `host`, `unit` and `ident` are aliases of
/// the common journal fields; any other key is looked up as it stands.
pub fn project_field_journal(line: &[u8], key: &str) -> (r: Option<String>)
    ensures
        text::opt_view(r) == field(line@, key@),
{
    if text::str_eq(key, "level") {
        return match schema::project_field(line, "PRIORITY") {
            Some(raw) => Some(
                severity::name(map_priority(json::unquote(raw.as_bytes()))).to_owned(),
            ),
            None => None,
        };
    }
    let name: &str = if text::str_eq(key, "msg") {
        "MESSAGE"
    } else if text::str_eq(key, "host") {
        "_HOSTNAME"
    } else if text::str_eq(key, "unit") {
        "_SYSTEMD_UNIT"
    } else if text::str_eq(key, "ident") {
        "SYSLOG_IDENTIFIER"
    } else {
        key
    };
    match schema::project_field(line, name) {
        Some(raw) => Some(schema::unquote_if_string(raw).to_owned()),
        None => None,
    }
}

/// The first 512 bytes of a line that opens a JSON object name a journal
/// timestamp, or a `"PRIORITY"` member.
pub open spec fn has_shape(s: Seq<u8>) -> bool {
    let window = s.subrange(
        0,
        if s.len() < 512 {
            s.len() as int
        } else {
            512
        },
    );
    s.len() > 0 && s[0] == '{' as u8 && (scan::occurs(window, text::enc("__REALTIME_TIMESTAMP"@))
        || scan::occurs(window, text::enc("\"PRIORITY\""@)))
}

/// Heuristic for format detection: a byte search, no JSON parse.
pub fn looks_like_journalctl(line: &[u8]) -> (r: bool)
    ensures
        r == has_shape(line@),
{
    if line.len() == 0 || line[0] != '{' as u8 {
        return false;
    }
    let n: usize = if line.len() < 512 {
        line.len()
    } else {
        512
    };
    let window: &[u8] = &line[0..n];
    proof {
        reveal_strlit("__REALTIME_TIMESTAMP");
        reveal_strlit("\"PRIORITY\"");
        text::lemma_ascii_literal("__REALTIME_TIMESTAMP");
        text::lemma_ascii_literal("\"PRIORITY\"");
    }
    scan::contains_subslice(window, "__REALTIME_TIMESTAMP".as_bytes())
        || scan::contains_subslice(window, "\"PRIORITY\"".as_bytes())
}

/// An entry's time is the number that its timestamp writes, with quotes round
/// it or without; its severity falls from `fatal` for the priorities 0 to 2 to
/// `debug` for 7, and any other priority has none.
pub proof fn law_entry_is_its_numbers(digits: Seq<char>, quotes: bool, p: Seq<char>)
    requires
        text::enc(digits).len() > 0,
        scan::all_digits(text::enc(digits)),
        scan::decimal(text::enc(digits)) <= i64::MAX,
    ensures
        ({
            let raw = |t: Seq<char>|
                if quotes {
                    seq!['"'] + t + seq!['"']
                } else {
                    t
                };
            let t = scan::decimal(text::enc(digits)) as i64;
            &&& entry_reading(Some(raw(digits)), None) == (TsOutcome::Timed(t), severity::UNKNOWN)
            &&& entry_reading(None, Some(raw(p))).0 == TsOutcome::Missing
            &&& p.len() == 1 && '0' <= p[0] <= '2' ==> entry_reading(None, Some(raw(p))).1
                == severity::FATAL
            &&& p.len() == 1 && p[0] == '3' ==> entry_reading(None, Some(raw(p))).1
                == severity::ERROR
            &&& p.len() == 1 && p[0] == '4' ==> entry_reading(None, Some(raw(p))).1
                == severity::WARN
            &&& p.len() == 1 && '5' <= p[0] <= '6' ==> entry_reading(None, Some(raw(p))).1
                == severity::INFO
            &&& p.len() == 1 && p[0] == '7' ==> entry_reading(None, Some(raw(p))).1
                == severity::DEBUG
            &&& p.len() == 1 && '8' <= p[0] <= '9' ==> entry_reading(None, Some(raw(p))).1
                == severity::UNKNOWN
        }),
{
    lemma_raw_number(digits);
    let b = text::enc(digits);
    assert(b.subrange(0, b.len() as int) =~= b);
    assert(ByteClass::Digit.has(b[0]));
    if p.len() == 1 && '0' <= p[0] <= '9' {
        vstd::utf8::is_ascii_chars_encode_utf8(p);
        lemma_raw_number(p);
    }
}

/// The quotes round a text are taken off; a number has none.
proof fn lemma_raw_number(t: Seq<char>)
    requires
        text::enc(t).len() > 0,
        text::enc(t)[0] != '"' as u8,
    ensures
        json::unquoted(text::enc(t)) == text::enc(t),
        json::unquoted(text::enc(seq!['"'] + t + seq!['"'])) == text::enc(t),
{
    text::lemma_enc_concat(seq!['"'] + t, seq!['"']);
    text::lemma_enc_concat(seq!['"'], t);
    let q = text::enc(seq!['"']);
    assert(q =~= seq!['"' as u8]) by {
        vstd::utf8::is_ascii_chars_encode_utf8(seq!['"']);
    }
    let b = text::enc(seq!['"'] + t + seq!['"']);
    assert(b =~= q + text::enc(t) + q);
    assert(json::unquoted(b) =~= text::enc(t));
}

/// The short names read the journal's own fields; every other name reads the
/// field of that name.
pub proof fn law_short_names_read_journal_fields(line: Seq<u8>, key: Seq<char>)
    ensures
        field(line, "msg"@) == field(line, "MESSAGE"@),
        field(line, "host"@) == field(line, "_HOSTNAME"@),
        field(line, "unit"@) == field(line, "_SYSTEMD_UNIT"@),
        field(line, "ident"@) == field(line, "SYSLOG_IDENTIFIER"@),
        key != "msg"@ && key != "host"@ && key != "unit"@ && key != "ident"@ && key != "level"@
            ==> field(line, key) == (match schema::raw_field(line, key) {
            Some(raw) => Some(schema::unquoted_text(raw)),
            None => None,
        }),
{
    reveal_strlit("msg");
    reveal_strlit("host");
    reveal_strlit("unit");
    reveal_strlit("ident");
    reveal_strlit("level");
    reveal_strlit("MESSAGE");
    reveal_strlit("_HOSTNAME");
    reveal_strlit("_SYSTEMD_UNIT");
    reveal_strlit("SYSLOG_IDENTIFIER");
    assert("msg"@.len() == 3 && "host"@.len() == 4 && "unit"@.len() == 4 && "ident"@.len() == 5
        && "level"@.len() == 5);
    assert("host"@[0] == 'h' && "unit"@[0] == 'u' && "ident"@[0] == 'i' && "level"@[0] == 'l');
    assert("MESSAGE"@.len() == 7 && "_HOSTNAME"@.len() == 9 && "_SYSTEMD_UNIT"@.len() == 13
        && "SYSLOG_IDENTIFIER"@.len() == 17);
}

} // verus!
