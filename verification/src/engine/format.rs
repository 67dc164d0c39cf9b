//! Log format dispatch.
//!
//! A format is a property of the **source**, not the line: one file is always
//! one format. The engine keeps a `LogFormat` per `source_id` and dispatches
//! through a small `match` for every record.

use vstd::prelude::*;

use std::borrow::Cow;

use crate::engine::parse;
use crate::engine::parse::{FieldNames, ParseStats, TsOutcome};
use crate::engine::parse_access;
use crate::engine::parse_csv;
use crate::engine::parse_csv::Delim;
use crate::engine::parse_edn;
use crate::engine::parse_journalctl;
use crate::engine::parse_logback;
use crate::engine::parse_logfmt;
use crate::engine::parse_python;
use crate::engine::parse_regex;
use crate::engine::parse_syslog;
use crate::engine::record::{severity, TS_UNTIMED};
use crate::pattern;
use crate::scan;
use crate::scan::ByteClass;
use crate::schema;
use crate::text;

verus! {

/// Closed set of supported log formats.
#[derive(Debug, Clone, Copy, PartialEq, Eq, Hash, Structural)]
pub enum LogFormat {
    /// One JSON object per line.
    Ndjson,
    /// Go / Heroku-style `key=value key="quoted value"` lines.
    Logfmt,
    /// Clojure EDN-style `{:k v :k v}` maps.
    Edn,
    /// Python `logging.basicConfig()` default format.
    Python,
    /// Syslog RFC 5424.
    Syslog,
    /// Apache / nginx access logs.
    Access,
    /// Comma-separated values with a header line.
    Csv,
    /// Tab-separated values with a header line.
    Tsv,
    /// Java logback / log4j2 default format.
    Logback,
    /// `journalctl -o json`.
    Journalctl,
    /// Plain text under a pattern with named captures.
    Regex,
}

impl Default for LogFormat {
    fn default() -> (r: Self)
        ensures
            r == LogFormat::Ndjson,
    {
        LogFormat::Ndjson
    }
}

/// The delimiter of a tabular format.
pub open spec fn delim_of(f: LogFormat) -> Option<Delim> {
    match f {
        LogFormat::Csv => Some(Delim::Comma),
        LogFormat::Tsv => Some(Delim::Tab),
        _ => None,
    }
}

impl LogFormat {
    /// The outcome and severity of a line. A CSV or TSV record cannot be read
    /// before its header is known, nor a line under a pattern before the
    /// pattern is, so they count as carrying no timestamp.
    #[verifier::opaque]
    pub open spec fn reading(self, line: Seq<u8>, fields: Option<&FieldNames>) -> (TsOutcome, u8) {
        match self {
            LogFormat::Ndjson => parse::ndjson_reading(line, fields),
            LogFormat::Logfmt => parse_logfmt::reading(line, fields),
            LogFormat::Edn => parse_edn::reading(line, fields),
            LogFormat::Python => parse_python::reading(line),
            LogFormat::Syslog => parse_syslog::reading(line),
            LogFormat::Access => parse_access::reading(line),
            LogFormat::Csv => (TsOutcome::Missing, severity::UNKNOWN),
            LogFormat::Tsv => (TsOutcome::Missing, severity::UNKNOWN),
            LogFormat::Logback => parse_logback::reading(line),
            LogFormat::Journalctl => parse_journalctl::reading(line),
            LogFormat::Regex => (TsOutcome::Missing, severity::UNKNOWN),
        }
    }

    /// Extract `(ts_micros, severity)` from a line. Called by producers on
    /// every record. `fields` overrides the names of the timestamp and level.
    pub fn parse_ts_level(
        self,
        line: &[u8],
        stats: &mut ParseStats,
        fields: Option<&FieldNames>,
    ) -> (r: (i64, u8))
        requires
            old(stats).has_room(),
        ensures
            r.0 == self.reading(line@, fields).0.micros(),
            r.1 == self.reading(line@, fields).1,
            *final(stats) == old(stats).counting(self.reading(line@, fields).0),
    {
        reveal(LogFormat::reading);
        match self {
            LogFormat::Ndjson => match fields {
                Some(f) => parse::ts_and_level_named(line, f, stats),
                None => parse::ts_and_level(line, stats),
            },
            LogFormat::Logfmt => parse_logfmt::ts_and_level(line, stats, fields),
            LogFormat::Edn => parse_edn::ts_and_level(line, stats, fields),
            LogFormat::Python => parse_python::ts_and_level(line, stats, fields),
            LogFormat::Syslog => parse_syslog::ts_and_level(line, stats, fields),
            LogFormat::Access => parse_access::ts_and_level(line, stats, fields),
            LogFormat::Csv => (stats.count(TsOutcome::Missing), severity::UNKNOWN),
            LogFormat::Tsv => (stats.count(TsOutcome::Missing), severity::UNKNOWN),
            LogFormat::Logback => parse_logback::ts_and_level(line, stats, fields),
            LogFormat::Journalctl => parse_journalctl::ts_and_level(line, stats, fields),
            LogFormat::Regex => (stats.count(TsOutcome::Missing), severity::UNKNOWN),
        }
    }

    /// The text of a field of a line. Without a header, CSV and TSV columns
    /// are addressed by position; without a pattern there are no captures.
    pub open spec fn field(self, line: Seq<u8>, key: Seq<char>) -> Option<Seq<char>> {
        match self {
            LogFormat::Ndjson => match schema::raw_field(line, key) {
                Some(raw) => Some(schema::unquoted_text(raw)),
                None => None,
            },
            LogFormat::Logfmt => parse_logfmt::field(line, key),
            LogFormat::Edn => parse_edn::field(line, key),
            LogFormat::Python => parse_python::field(line, key),
            LogFormat::Syslog => parse_syslog::field(line, key),
            LogFormat::Access => parse_access::field(line, key),
            LogFormat::Csv => parse_csv::field(
                line,
                Delim::Comma.as_byte(),
                Seq::empty(),
                key,
            ),
            LogFormat::Tsv => parse_csv::field(line, Delim::Tab.as_byte(), Seq::empty(), key),
            LogFormat::Logback => parse_logback::field(line, key),
            LogFormat::Journalctl => parse_journalctl::field(line, key),
            LogFormat::Regex => None,
        }
    }

    /// Project one field as a string. `None` if the field is absent or the
    /// line does not parse.
    pub fn project_field<'a>(self, line: &'a [u8], key: &str) -> (r: Option<Cow<'a, str>>)
        ensures
            match r {
                Some(c) => self.field(line@, key@) == Some(c@),
                None => self.field(line@, key@) is None,
            },
    {
        let owned: Option<String> = match self {
            LogFormat::Ndjson => {
                return match schema::project_field(line, key) {
                    Some(raw) => Some(Cow::Borrowed(schema::unquote_if_string(raw))),
                    None => None,
                };
            },
            LogFormat::Logfmt => parse_logfmt::project_field(line, key),
            LogFormat::Edn => parse_edn::project_field(line, key),
            LogFormat::Python => parse_python::project_field(line, key),
            LogFormat::Syslog => parse_syslog::project_field(line, key),
            LogFormat::Access => parse_access::project_field(line, key),
            LogFormat::Csv => project_positional(line, Delim::Comma, key),
            LogFormat::Tsv => project_positional(line, Delim::Tab, key),
            LogFormat::Logback => parse_logback::project_field(line, key),
            LogFormat::Journalctl => parse_journalctl::project_field_journal(line, key),
            LogFormat::Regex => None,
        };
        match owned {
            Some(s) => Some(Cow::Owned(s)),
            None => None,
        }
    }

    /// A line continues the record before it.
    pub open spec fn continues(self, line: Seq<u8>) -> bool {
        match self {
            LogFormat::Logfmt => line.len() > 0 && ByteClass::Blank.has(line[0]),
            LogFormat::Edn => line.len() > 0 && ByteClass::Blank.has(line[0]),
            LogFormat::Python => parse_python::continues(line),
            LogFormat::Logback => parse_logback::continues(line),
            LogFormat::Syslog => line.len() == 0 || line[0] != '<' as u8,
            _ => false,
        }
    }

    /// The records are read once more when all are in: tables by their header,
    /// plain text by its pattern.
    pub open spec fn reads_twice(self) -> bool {
        self == LogFormat::Csv || self == LogFormat::Tsv || self == LogFormat::Regex
    }

    /// True if the records are read once more when all are in.
    pub fn is_read_twice(self) -> (r: bool)
        ensures
            r == self.reads_twice(),
    {
        match self {
            LogFormat::Csv => true,
            LogFormat::Tsv => true,
            LogFormat::Regex => true,
            _ => false,
        }
    }

    /// True if the counters of a source go into the engine's: those of a mapped
    /// file on its own do. Streams and merged files keep theirs to themselves,
    /// except for what is read twice: such a record must have been counted
    /// before.
    pub fn keeps_counters(self, mapped_alone: bool) -> (r: bool)
        ensures
            r == (mapped_alone || self.reads_twice()),
    {
        mapped_alone || self.is_read_twice()
    }

    /// True if `line` is a continuation of the previous record. For logfmt and
    /// EDN that is a line that starts with a blank; for Python and logback one
    /// that does not start with a digit; for syslog one that does not start
    /// with `<`. The other formats are strictly one record per line.
    pub fn is_continuation(self, line: &[u8]) -> (r: bool)
        ensures
            r == self.continues(line@),
    {
        match self {
            LogFormat::Logfmt => line.len() > 0 && ByteClass::Blank.test(line[0]),
            LogFormat::Edn => line.len() > 0 && ByteClass::Blank.test(line[0]),
            LogFormat::Python => parse_python::is_continuation(line),
            LogFormat::Logback => parse_logback::is_continuation(line),
            LogFormat::Syslog => line.len() == 0 || line[0] != '<' as u8,
            _ => false,
        }
    }

    /// Severity rank of a level name. Same rank across formats.
    pub fn severity_from_level(self, level: &str) -> (r: u8)
        ensures
            r == severity::rank_of(text::enc(level@)),
    {
        severity::from_bytes(level.as_bytes())
    }

    /// Timestamp of an RFC 3339 text.
    pub fn parse_timestamp(self, s: &str) -> (r: Option<i64>)
        ensures
            r is Some <==> parse::rfc3339(text::enc(s@)) is Some,
            r matches Some(v) ==> v == parse::rfc3339(text::enc(s@))->0,
    {
        parse::parse_rfc3339_micros(s)
    }

    /// Guess a format from the first records of an input. Each line votes for
    /// the first format whose signature it bears; a format needs two votes to
    /// win. `Ndjson` when in doubt.
    pub fn detect(first_lines: &[&[u8]]) -> (r: LogFormat)
        ensures
            r == verdict(line_views(first_lines@)),
    {
        let ghost lines = line_views(first_lines@);
        let mut syslog: usize = 0;
        let mut access: usize = 0;
        let mut logback: usize = 0;
        let mut journal: usize = 0;
        let mut ndjson: usize = 0;
        let mut edn: usize = 0;
        let mut logfmt: usize = 0;
        let mut i: usize = 0;
        assert(lines.take(0) =~= Seq::empty());
        while i < first_lines.len()
            invariant
                i <= first_lines@.len(),
                lines == line_views(first_lines@),
                syslog <= i,
                access <= i,
                logback <= i,
                journal <= i,
                ndjson <= i,
                edn <= i,
                logfmt <= i,
                syslog == votes(lines.take(i as int), LogFormat::Syslog),
                access == votes(lines.take(i as int), LogFormat::Access),
                logback == votes(lines.take(i as int), LogFormat::Logback),
                journal == votes(lines.take(i as int), LogFormat::Journalctl),
                ndjson == votes(lines.take(i as int), LogFormat::Ndjson),
                edn == votes(lines.take(i as int), LogFormat::Edn),
                logfmt == votes(lines.take(i as int), LogFormat::Logfmt),
            decreases first_lines@.len() - i,
        {
            assert(lines.take(i + 1).drop_last() =~= lines.take(i as int));
            assert(lines.take(i + 1).last() == first_lines@[i as int]@);
            match line_vote(first_lines[i]) {
                Some(f) => {
                    match f {
                        LogFormat::Syslog => {
                            syslog = syslog + 1;
                        },
                        LogFormat::Access => {
                            access = access + 1;
                        },
                        LogFormat::Logback => {
                            logback = logback + 1;
                        },
                        LogFormat::Journalctl => {
                            journal = journal + 1;
                        },
                        LogFormat::Ndjson => {
                            ndjson = ndjson + 1;
                        },
                        LogFormat::Edn => {
                            edn = edn + 1;
                        },
                        LogFormat::Logfmt => {
                            logfmt = logfmt + 1;
                        },
                        _ => {},
                    }
                },
                None => {},
            }
            i = i + 1;
        }
        assert(lines.take(lines.len() as int) =~= lines);
        let generic: usize = max_of(max_of(ndjson, edn), logfmt);
        let framed: usize = max_of(max_of(syslog, access), max_of(logback, journal));
        if framed >= 2 && framed > generic {
            if syslog == framed {
                LogFormat::Syslog
            } else if access == framed {
                LogFormat::Access
            } else if logback == framed {
                LogFormat::Logback
            } else {
                LogFormat::Journalctl
            }
        } else if edn > ndjson && edn > logfmt && edn >= 2 {
            LogFormat::Edn
        } else if logfmt > ndjson && logfmt >= 2 {
            LogFormat::Logfmt
        } else {
            LogFormat::Ndjson
        }
    }
}

fn project_positional(line: &[u8], delim: Delim, key: &str) -> (r: Option<String>)
    ensures
        text::opt_view(r) == parse_csv::field(line@, delim.as_byte(), Seq::empty(), key@),
{
    let headers: Vec<String> = Vec::new();
    assert(text::texts(headers@) =~= Seq::empty());
    parse_csv::project_field_with_header(line, delim, headers.as_slice(), key)
}

fn max_of(a: usize, b: usize) -> (r: usize)
    ensures
        r == (if a >= b {
            a
        } else {
            b
        }),
{
    if a >= b {
        a
    } else {
        b
    }
}

pub open spec fn line_views(lines: Seq<&[u8]>) -> Seq<Seq<u8>> {
    Seq::new(lines.len(), |i: int| lines[i]@)
}

/// The format whose signature a line bears, the most specific first.
pub open spec fn vote(line: Seq<u8>) -> Option<LogFormat> {
    let t = scan::trimmed(line);
    if t.len() == 0 {
        None
    } else if parse_syslog::has_frame(t) {
        Some(LogFormat::Syslog)
    } else if parse_access::has_shape(t) {
        Some(LogFormat::Access)
    } else if parse_logback::has_shape(t) {
        Some(LogFormat::Logback)
    } else if parse_journalctl::has_shape(t) {
        Some(LogFormat::Journalctl)
    } else if t[0] == '{' as u8 && t[t.len() - 1] == '}' as u8 {
        if edn_signed(t) {
            Some(LogFormat::Edn)
        } else {
            Some(LogFormat::Ndjson)
        }
    } else if logfmt_signed(t) {
        Some(LogFormat::Logfmt)
    } else {
        None
    }
}

/// How many lines vote for a format.
pub open spec fn votes(lines: Seq<Seq<u8>>, f: LogFormat) -> nat
    decreases lines.len(),
{
    if lines.len() == 0 {
        0
    } else {
        votes(lines.drop_last(), f) + if vote(lines.last()) == Some(f) {
            1nat
        } else {
            0
        }
    }
}

/// `f` has at least two votes, more than each generic format, and no fewer
/// than any other framed one.
pub open spec fn leads(lines: Seq<Seq<u8>>, f: LogFormat) -> bool {
    let n = votes(lines, f);
    &&& n >= 2
    &&& n > votes(lines, LogFormat::Ndjson)
    &&& n > votes(lines, LogFormat::Logfmt)
    &&& n > votes(lines, LogFormat::Edn)
    &&& n >= votes(lines, LogFormat::Syslog)
    &&& n >= votes(lines, LogFormat::Access)
    &&& n >= votes(lines, LogFormat::Logback)
    &&& n >= votes(lines, LogFormat::Journalctl)
}

/// The format that a sample of lines elects. Among framed formats with equal
/// votes the more specific wins.
pub open spec fn verdict(lines: Seq<Seq<u8>>) -> LogFormat {
    let ndjson = votes(lines, LogFormat::Ndjson);
    let logfmt = votes(lines, LogFormat::Logfmt);
    let edn = votes(lines, LogFormat::Edn);
    if leads(lines, LogFormat::Syslog) {
        LogFormat::Syslog
    } else if leads(lines, LogFormat::Access) {
        LogFormat::Access
    } else if leads(lines, LogFormat::Logback) {
        LogFormat::Logback
    } else if leads(lines, LogFormat::Journalctl) {
        LogFormat::Journalctl
    } else if edn > ndjson && edn > logfmt && edn >= 2 {
        LogFormat::Edn
    } else if logfmt > ndjson && logfmt >= 2 {
        LogFormat::Logfmt
    } else {
        LogFormat::Ndjson
    }
}

fn line_vote(line: &[u8]) -> (r: Option<LogFormat>)
    ensures
        r == vote(line@),
{
    let t: &[u8] = scan::trim_ascii(line);
    if t.len() == 0 {
        return None;
    }
    if parse_syslog::looks_like_syslog(t) {
        return Some(LogFormat::Syslog);
    }
    if parse_access::looks_like_access(t) {
        return Some(LogFormat::Access);
    }
    if parse_logback::looks_like_logback(t) {
        return Some(LogFormat::Logback);
    }
    if parse_journalctl::looks_like_journalctl(t) {
        return Some(LogFormat::Journalctl);
    }
    if t[0] == '{' as u8 && t[t.len() - 1] == '}' as u8 {
        return if edn_signature(t) {
            Some(LogFormat::Edn)
        } else {
            Some(LogFormat::Ndjson)
        };
    }
    if logfmt_signature(t) {
        return Some(LogFormat::Logfmt);
    }
    None
}

/// The first non-blank inside the opening brace is a keyword `:` or tag `#`.
pub open spec fn edn_signed(s: Seq<u8>) -> bool {
    let i = scan::run_end(s, 1, ByteClass::Blank);
    s.len() > 0 && s[0] == '{' as u8 && i < s.len() && (s[i] == ':' as u8 || s[i] == '#' as u8)
}

fn edn_signature(s: &[u8]) -> (r: bool)
    ensures
        r == edn_signed(s@),
{
    if s.len() == 0 || s[0] != '{' as u8 {
        return false;
    }
    let i: usize = scan::skip(s, 1, ByteClass::Blank);
    i < s.len() && (s[i] == ':' as u8 || s[i] == '#' as u8)
}

/// Index of the `=` behind a bare key at or after `i`, spaces before the key
/// skipped.
pub open spec fn key_equals(s: Seq<u8>, i: int) -> Option<int> {
    let j = scan::run_end(s, i, ByteClass::Only(' ' as u8));
    let k = scan::run_end(s, j, ByteClass::Word);
    if j < k < s.len() && s[k] == '=' as u8 {
        Some(k)
    } else {
        None
    }
}

/// Index behind a quoted value read from `i`; a backslash takes the byte
/// behind it along.
pub open spec fn quote_end(s: Seq<u8>, i: int) -> int
    decreases s.len() - i,
{
    if !(0 <= i < s.len()) {
        i
    } else if s[i] == '\\' as u8 && i + 1 < s.len() {
        quote_end(s, i + 2)
    } else if s[i] == '"' as u8 {
        i + 1
    } else {
        quote_end(s, i + 1)
    }
}

/// Index behind the value that starts at `i`.
pub open spec fn value_end(s: Seq<u8>, i: int) -> int {
    if i < s.len() && s[i] == '"' as u8 {
        quote_end(s, i + 1)
    } else {
        scan::run_end(s, i, ByteClass::Except(' ' as u8))
    }
}

/// Two `key=value` pairs open the line.
pub open spec fn logfmt_signed(s: Seq<u8>) -> bool {
    match key_equals(s, 0) {
        None => false,
        Some(k) => key_equals(s, value_end(s, k + 1)) is Some,
    }
}

fn find_key_equals(s: &[u8], i: usize) -> (r: Option<usize>)
    requires
        i <= s@.len(),
    ensures
        match r {
            Some(k) => key_equals(s@, i as int) == Some(k as int) && k < s@.len() && k < usize::MAX,
            None => key_equals(s@, i as int) is None,
        },
{
    let j: usize = scan::skip(s, i, ByteClass::Only(' ' as u8));
    let k: usize = scan::skip(s, j, ByteClass::Word);
    if k > j && k < s.len() && s[k] == '=' as u8 {
        Some(k)
    } else {
        None
    }
}

fn find_value_end(s: &[u8], from: usize) -> (r: usize)
    requires
        from <= s@.len(),
    ensures
        r == value_end(s@, from as int),
        from <= r <= s@.len(),
{
    if from >= s.len() || s[from] != '"' as u8 {
        return scan::skip(s, from, ByteClass::Except(' ' as u8));
    }
    let mut i: usize = from + 1;
    while i < s.len()
        invariant
            from < i <= s@.len(),
            s@[from as int] == '"' as u8,
            quote_end(s@, from + 1) == quote_end(s@, i as int),
        decreases s@.len() - i,
    {
        if s[i] == '\\' as u8 && i + 1 < s.len() {
            i = i + 2;
        } else if s[i] == '"' as u8 {
            return i + 1;
        } else {
            i = i + 1;
        }
    }
    i
}

fn logfmt_signature(s: &[u8]) -> (r: bool)
    ensures
        r == logfmt_signed(s@),
{
    match find_key_equals(s, 0) {
        None => false,
        Some(k) => {
            let e: usize = find_value_end(s, k + 1);
            find_key_equals(s, e).is_some()
        },
    }
}

/// How the records of a source are read: its format, and what the format needs
/// to know of the source.
pub struct Dialect {
    pub format: LogFormat,
    /// Column names of a CSV or TSV source.
    pub headers: Seq<Seq<char>>,
    /// Pattern of a source of plain text.
    pub pattern: Option<Seq<char>>,
}

impl Dialect {
    /// A format on its own.
    pub open spec fn plain(format: LogFormat) -> Dialect {
        Dialect { format, headers: Seq::empty(), pattern: None }
    }

    /// The text of a field of a line.
    pub open spec fn field(self, line: Seq<u8>, key: Seq<char>) -> Option<Seq<char>> {
        match self.format {
            LogFormat::Csv => parse_csv::field(line, Delim::Comma.as_byte(), self.headers, key),
            LogFormat::Tsv => parse_csv::field(line, Delim::Tab.as_byte(), self.headers, key),
            LogFormat::Regex => match self.pattern {
                Some(p) => parse_regex::field(p, line, key),
                None => None,
            },
            _ => self.format.field(line, key),
        }
    }
}

/// The texts of some column names; none where there are no names.
pub open spec fn header_texts(headers: Option<&[String]>) -> Seq<Seq<char>> {
    match headers {
        Some(h) => text::texts(h@),
        None => Seq::empty(),
    }
}

/// The pattern that an optional regex was built from.
pub open spec fn pattern_text(re: Option<&regex::bytes::Regex>) -> Option<Seq<char>> {
    match re {
        Some(re) => Some(pattern::bytes_pattern(*re)),
        None => None,
    }
}

/// Per-record field cache. Reused across predicate evaluations on a single
/// record so the parse cost is paid at most once per field per record.
pub struct FieldCache<'a> {
    format: LogFormat,
    headers: Option<&'a [String]>,
    regex: Option<&'a regex::bytes::Regex>,
    bytes: &'a [u8],
    cache: Vec<(String, Option<String>)>,
}

impl<'a> FieldCache<'a> {
    /// How the record under evaluation is read.
    pub closed spec fn dialect(self) -> Dialect {
        Dialect {
            format: self.format,
            headers: header_texts(self.headers),
            pattern: pattern_text(self.regex),
        }
    }

    /// The bytes of the record under evaluation.
    pub closed spec fn line(self) -> Seq<u8> {
        self.bytes@
    }

    /// Every cached value is the field's.
    pub closed spec fn wf(self) -> bool {
        forall|i: int|
            0 <= i < self.cache@.len() ==> text::opt_view((#[trigger] self.cache@[i]).1)
                == self.dialect().field(self.bytes@, self.cache@[i].0@)
    }

    pub fn new(format: LogFormat, bytes: &'a [u8]) -> (r: Self)
        ensures
            r.wf(),
            r.dialect() == Dialect::plain(format),
            r.line() == bytes@,
    {
        FieldCache { format, headers: None, regex: None, bytes, cache: Vec::new() }
    }

    /// The same record with its source's column names known.
    pub fn with_headers(self, headers: &'a [String]) -> (r: Self)
        ensures
            r.wf(),
            r.dialect() == (Dialect { headers: text::texts(headers@), ..self.dialect() }),
            r.line() == self.line(),
    {
        FieldCache {
            format: self.format,
            headers: Some(headers),
            regex: self.regex,
            bytes: self.bytes,
            cache: Vec::new(),
        }
    }

    /// The same record with its source's pattern known.
    pub fn with_regex(self, regex: &'a regex::bytes::Regex) -> (r: Self)
        ensures
            r.wf(),
            r.dialect() == (Dialect {
                pattern: Some(pattern::bytes_pattern(*regex)),
                ..self.dialect()
            }),
            r.line() == self.line(),
    {
        FieldCache {
            format: self.format,
            headers: self.headers,
            regex: Some(regex),
            bytes: self.bytes,
            cache: Vec::new(),
        }
    }

    fn project_row(&self, delim: Delim, key: &str) -> (r: Option<String>)
        ensures
            text::opt_view(r) == parse_csv::field(
                self.bytes@,
                delim.as_byte(),
                header_texts(self.headers),
                key@,
            ),
    {
        match self.headers {
            Some(h) => parse_csv::project_field_with_header(self.bytes, delim, h, key),
            None => project_positional(self.bytes, delim, key),
        }
    }

    fn project(&self, key: &str) -> (r: Option<String>)
        ensures
            text::opt_view(r) == self.dialect().field(self.bytes@, key@),
    {
        match self.format {
            LogFormat::Csv => self.project_row(Delim::Comma, key),
            LogFormat::Tsv => self.project_row(Delim::Tab, key),
            LogFormat::Regex => match self.regex {
                Some(re) => parse_regex::project_field(self.bytes, re, key),
                None => None,
            },
            _ => match self.format.project_field(self.bytes, key) {
                Some(Cow::Borrowed(s)) => Some(s.to_owned()),
                Some(Cow::Owned(s)) => Some(s),
                None => None,
            },
        }
    }

    /// Look up one field. The first call parses; later calls hit the cache.
    pub fn get(&mut self, key: &str) -> (r: Option<&str>)
        requires
            old(self).wf(),
        ensures
            match r {
                Some(s) => old(self).dialect().field(old(self).line(), key@) == Some(s@),
                None => old(self).dialect().field(old(self).line(), key@) is None,
            },
            final(self).wf(),
            final(self).dialect() == old(self).dialect(),
            final(self).line() == old(self).line(),
    {
        let mut i: usize = 0;
        while i < self.cache.len() && !text::str_eq(self.cache[i].0.as_str(), key)
            invariant
                i <= self.cache@.len(),
                self.wf(),
                self.dialect() == old(self).dialect(),
                self.bytes == old(self).bytes,
            decreases self.cache@.len() - i,
        {
            i = i + 1;
        }
        if i >= self.cache.len() {
            let parsed: Option<String> = self.project(key);
            i = self.cache.len();
            self.cache.push((key.to_owned(), parsed));
        }
        match &self.cache[i].1 {
            Some(s) => Some(s.as_str()),
            None => None,
        }
    }

    /// Raw bytes, for predicates that work without parsing.
    pub fn raw(&self) -> (r: &[u8])
        ensures
            r@ == self.line(),
    {
        self.bytes
    }

    /// Format of the record under evaluation.
    pub fn format(&self) -> (r: LogFormat)
        ensures
            r == self.dialect().format,
    {
        self.format
    }

    /// Go on to another record of the source: drop all parsed values.
    pub fn reset(&mut self, bytes: &'a [u8])
        ensures
            final(self).wf(),
            final(self).dialect() == old(self).dialect(),
            final(self).line() == bytes@,
    {
        self.bytes = bytes;
        self.cache.clear();
    }
}

/// Anything but the default takes at least two lines that vote for it.
pub proof fn law_one_line_elects_nothing(lines: Seq<Seq<u8>>)
    ensures
        verdict(lines) != LogFormat::Ndjson ==> votes(lines, verdict(lines)) >= 2,
        verdict(lines) != LogFormat::Csv,
        verdict(lines) != LogFormat::Tsv,
        verdict(lines) != LogFormat::Python,
        verdict(lines) != LogFormat::Regex,
{
}

/// One call for a timestamp and a severity.
pub struct Call<'a> {
    pub format: LogFormat,
    pub line: Seq<u8>,
    pub fields: Option<&'a FieldNames>,
}

impl<'a> Call<'a> {
    pub open spec fn reading(self) -> (TsOutcome, u8) {
        self.format.reading(self.line, self.fields)
    }
}

/// The tally after some calls, from an empty one.
pub open spec fn tallied(calls: Seq<Call>) -> ParseStats
    decreases calls.len(),
{
    if calls.len() == 0 {
        ParseStats { untimed: 0, ts_parse_errors: 0, json_parse_errors: 0 }
    } else {
        tallied(calls.drop_last()).counting(calls.last().reading().0)
    }
}

/// How many calls gave no time.
pub open spec fn untimed_calls(calls: Seq<Call>) -> nat
    decreases calls.len(),
{
    if calls.len() == 0 {
        0
    } else {
        untimed_calls(calls.drop_last()) + if calls.last().reading().0.micros() == TS_UNTIMED {
            1nat
        } else {
            0
        }
    }
}

/// Every severity is a rank. A time is never the mark of an untimed record,
/// save for a journal entry that writes just that number.
pub proof fn lemma_reading_sound(call: Call)
    requires
        call.format == LogFormat::Journalctl ==> call.reading().0 != TsOutcome::Timed(TS_UNTIMED),
    ensures
        parse::is_sound(call.reading()),
{
    reveal(LogFormat::reading);
    let line = call.line;
    match call.format {
        LogFormat::Ndjson => {
            parse::lemma_ndjson_sound(line, call.fields);
        },
        LogFormat::Logfmt => {
            parse_logfmt::lemma_reading_sound(line, call.fields);
        },
        LogFormat::Edn => {
            parse_edn::lemma_reading_sound(line, call.fields);
        },
        LogFormat::Python => {
            if let Some(sep) = scan::dash_at(line, 0) {
                parse::lemma_rfc3339_range(parse::dashed_as_rfc3339(line.subrange(0, sep)));
            }
        },
        LogFormat::Syslog => {
            if let Some(h) = parse_syslog::header(line) {
                parse::lemma_rfc3339_range(h.timestamp);
            }
        },
        LogFormat::Access => {
            parse_access::lemma_reading_sound(line);
        },
        LogFormat::Logback => {
            if let Some(h) = parse_logback::header(line) {
                parse::lemma_rfc3339_range(parse::dashed_as_rfc3339(h.ts_raw));
            }
        },
        _ => {},
    }
}

/// Over a run of calls, whatever the formats and lines: the untimed tally is
/// the number of calls that gave no time, no record counts as more than one
/// error, a timed one as none, and every severity is a rank. A journal entry
/// that writes the mark of an untimed record as its time is left out.
pub proof fn law_tallies_count_the_untimed(calls: Seq<Call>)
    requires
        calls.len() <= u64::MAX,
        forall|i: int|
            0 <= i < calls.len() && (#[trigger] calls[i]).format == LogFormat::Journalctl
                ==> calls[i].reading().0 != TsOutcome::Timed(TS_UNTIMED),
    ensures
        tallied(calls).untimed == untimed_calls(calls),
        tallied(calls).ts_parse_errors + tallied(calls).json_parse_errors <= tallied(calls).untimed,
        tallied(calls).untimed <= calls.len(),
        forall|i: int| 0 <= i < calls.len() ==> (#[trigger] calls[i]).reading().1 <= severity::FATAL,
    decreases calls.len(),
{
    if calls.len() > 0 {
        let prev = calls.drop_last();
        let last = calls[calls.len() - 1];
        assert forall|i: int|
            0 <= i < prev.len() && (#[trigger] prev[i]).format == LogFormat::Journalctl implies prev[i].reading().0
            != TsOutcome::Timed(TS_UNTIMED) by {
            assert(prev[i] == calls[i]);
        }
        law_tallies_count_the_untimed(prev);
        lemma_reading_sound(last);
        assert forall|i: int| 0 <= i < calls.len() implies (#[trigger] calls[i]).reading().1
            <= severity::FATAL by {
            if i < prev.len() {
                assert(prev[i] == calls[i]);
            }
        }
    }
}

/// A line's vote goes by what it holds apart from white space at its ends.
proof fn lemma_vote_trimmed(a: Seq<u8>, b: Seq<u8>)
    requires
        scan::trimmed(a) == scan::trimmed(b),
    ensures
        vote(a) == vote(b),
{
}

/// The votes of a sample without one line are those of the sample less that
/// line's.
proof fn lemma_votes_without(lines: Seq<Seq<u8>>, i: int, f: LogFormat)
    requires
        0 <= i < lines.len(),
    ensures
        votes(lines, f) == votes(lines.remove(i), f) + if vote(lines[i]) == Some(f) {
            1nat
        } else {
            0
        },
    decreases lines.len(),
{
    let less = lines.remove(i);
    if i == lines.len() - 1 {
        assert(less =~= lines.drop_last());
    } else {
        lemma_votes_without(lines.drop_last(), i, f);
        assert(less.drop_last() =~= lines.drop_last().remove(i));
        assert(less.last() == lines.last());
    }
}

/// The votes do not depend on the order of the lines.
proof fn lemma_votes_of_same_lines(a: Seq<Seq<u8>>, b: Seq<Seq<u8>>, f: LogFormat)
    requires
        a.to_multiset() == b.to_multiset(),
    ensures
        votes(a, f) == votes(b, f),
    decreases a.len(),
{
    a.to_multiset_ensures();
    b.to_multiset_ensures();
    if a.len() > 0 {
        let x = a[a.len() - 1];
        assert(a.contains(x));
        assert(b.to_multiset().count(x) > 0);
        assert(b.contains(x));
        let j = choose|j: int| 0 <= j < b.len() && b[j] == x;
        assert(a.remove(a.len() - 1) =~= a.drop_last());
        assert(a.drop_last().to_multiset() =~= b.remove(j).to_multiset());
        lemma_votes_of_same_lines(a.drop_last(), b.remove(j), f);
        lemma_votes_without(b, j, f);
    } else {
        assert(b.len() == 0);
    }
}

proof fn lemma_same_votes_same_verdict(a: Seq<Seq<u8>>, b: Seq<Seq<u8>>)
    requires
        forall|f: LogFormat| #[trigger] votes(a, f) == votes(b, f),
    ensures
        verdict(a) == verdict(b),
{
    assert(votes(a, LogFormat::Syslog) == votes(b, LogFormat::Syslog));
    assert(votes(a, LogFormat::Access) == votes(b, LogFormat::Access));
    assert(votes(a, LogFormat::Logback) == votes(b, LogFormat::Logback));
    assert(votes(a, LogFormat::Journalctl) == votes(b, LogFormat::Journalctl));
    assert(votes(a, LogFormat::Ndjson) == votes(b, LogFormat::Ndjson));
    assert(votes(a, LogFormat::Edn) == votes(b, LogFormat::Edn));
    assert(votes(a, LogFormat::Logfmt) == votes(b, LogFormat::Logfmt));
}

/// The order of the lines does not matter to what they elect.
pub proof fn law_order_does_not_matter(a: Seq<Seq<u8>>, b: Seq<Seq<u8>>)
    requires
        a.to_multiset() == b.to_multiset(),
    ensures
        verdict(a) == verdict(b),
{
    assert forall|f: LogFormat| #[trigger] votes(a, f) == votes(b, f) by {
        lemma_votes_of_same_lines(a, b, f);
    }
    lemma_same_votes_same_verdict(a, b);
}

/// A blank line does not matter to what a sample elects: with it or without,
/// the verdict is the same.
pub proof fn law_blank_lines_do_not_matter(lines: Seq<Seq<u8>>, i: int)
    requires
        0 <= i < lines.len(),
        scan::trimmed(lines[i]).len() == 0,
    ensures
        verdict(lines.remove(i)) == verdict(lines),
{
    assert forall|f: LogFormat| #[trigger] votes(lines, f) == votes(lines.remove(i), f) by {
        lemma_votes_without(lines, i, f);
    }
    lemma_same_votes_same_verdict(lines, lines.remove(i));
}

/// White space at the end of a line does not matter to what a sample elects.
pub proof fn law_trailing_blanks_do_not_matter(lines: Seq<Seq<u8>>, i: int, blanks: Seq<u8>)
    requires
        0 <= i < lines.len(),
        forall|k: int| 0 <= k < blanks.len() ==> ByteClass::Whitespace.has(#[trigger] blanks[k]),
    ensures
        verdict(lines.update(i, lines[i] + blanks)) == verdict(lines),
{
    let other = lines.update(i, lines[i] + blanks);
    scan::lemma_trimmed_end(lines[i], blanks);
    lemma_vote_trimmed(lines[i], lines[i] + blanks);
    assert forall|f: LogFormat| #[trigger] votes(lines, f) == votes(other, f) by {
        lemma_votes_without(lines, i, f);
        lemma_votes_without(other, i, f);
        assert(lines.remove(i) =~= other.remove(i));
    }
    lemma_same_votes_same_verdict(lines, other);
}

/// A line that votes for a format bears its signature, once trimmed.
pub proof fn law_a_vote_bears_its_signature(line: Seq<u8>)
    ensures
        ({
            let t = scan::trimmed(line);
            &&& vote(line) == Some(LogFormat::Syslog) ==> parse_syslog::has_frame(t)
            &&& vote(line) == Some(LogFormat::Access) ==> parse_access::has_shape(t)
            &&& vote(line) == Some(LogFormat::Logback) ==> parse_logback::has_shape(t)
            &&& vote(line) == Some(LogFormat::Journalctl) ==> parse_journalctl::has_shape(t)
            &&& vote(line) == Some(LogFormat::Edn) ==> edn_signed(t) && t[t.len() - 1] == '}' as u8
            &&& vote(line) == Some(LogFormat::Logfmt) ==> logfmt_signed(t)
            &&& vote(line) != Some(LogFormat::Python)
        }),
{
}

/// Two votes come from two lines.
proof fn lemma_two_voters(lines: Seq<Seq<u8>>, f: LogFormat)
    requires
        votes(lines, f) >= 2,
    ensures
        exists|i: int, j: int|
            0 <= i < j < lines.len() && vote(#[trigger] lines[i]) == Some(f) && vote(
                #[trigger] lines[j],
            ) == Some(f),
    decreases lines.len(),
{
    let prev = lines.drop_last();
    let last = lines.len() - 1;
    if vote(lines[last]) == Some(f) {
        lemma_one_voter(prev, f);
        let i = choose|i: int| 0 <= i < prev.len() && vote(#[trigger] prev[i]) == Some(f);
        assert(prev[i] == lines[i]);
        assert(0 <= i < last && vote(lines[i]) == Some(f) && vote(lines[last]) == Some(f));
    } else {
        lemma_two_voters(prev, f);
        let (i, j) = choose|i: int, j: int|
            0 <= i < j < prev.len() && vote(#[trigger] prev[i]) == Some(f) && vote(
                #[trigger] prev[j],
            ) == Some(f);
        assert(prev[i] == lines[i] && prev[j] == lines[j]);
    }
}

proof fn lemma_one_voter(lines: Seq<Seq<u8>>, f: LogFormat)
    requires
        votes(lines, f) >= 1,
    ensures
        exists|i: int| 0 <= i < lines.len() && vote(#[trigger] lines[i]) == Some(f),
    decreases lines.len(),
{
    let prev = lines.drop_last();
    let last = lines.len() - 1;
    if vote(lines[last]) != Some(f) {
        lemma_one_voter(prev, f);
        let i = choose|i: int| 0 <= i < prev.len() && vote(#[trigger] prev[i]) == Some(f);
        assert(prev[i] == lines[i]);
    }
}

/// A sample that elects anything but the default holds two lines that bear the
/// elected format's signature, once trimmed.
pub proof fn law_two_lines_bear_the_signature(lines: Seq<Seq<u8>>)
    ensures
        verdict(lines) == LogFormat::Syslog ==> exists|i: int, j: int|
            0 <= i < j < lines.len() && parse_syslog::has_frame(scan::trimmed(#[trigger] lines[i]))
                && parse_syslog::has_frame(scan::trimmed(#[trigger] lines[j])),
        verdict(lines) == LogFormat::Access ==> exists|i: int, j: int|
            0 <= i < j < lines.len() && parse_access::has_shape(scan::trimmed(#[trigger] lines[i]))
                && parse_access::has_shape(scan::trimmed(#[trigger] lines[j])),
        verdict(lines) == LogFormat::Logback ==> exists|i: int, j: int|
            0 <= i < j < lines.len() && parse_logback::has_shape(scan::trimmed(#[trigger] lines[i]))
                && parse_logback::has_shape(scan::trimmed(#[trigger] lines[j])),
        verdict(lines) == LogFormat::Journalctl ==> exists|i: int, j: int|
            0 <= i < j < lines.len() && parse_journalctl::has_shape(
                scan::trimmed(#[trigger] lines[i]),
            ) && parse_journalctl::has_shape(scan::trimmed(#[trigger] lines[j])),
        verdict(lines) == LogFormat::Edn ==> exists|i: int, j: int|
            0 <= i < j < lines.len() && edn_signed(scan::trimmed(#[trigger] lines[i]))
                && edn_signed(scan::trimmed(#[trigger] lines[j])),
        verdict(lines) == LogFormat::Logfmt ==> exists|i: int, j: int|
            0 <= i < j < lines.len() && logfmt_signed(scan::trimmed(#[trigger] lines[i]))
                && logfmt_signed(scan::trimmed(#[trigger] lines[j])),
{
    let f = verdict(lines);
    law_one_line_elects_nothing(lines);
    if f != LogFormat::Ndjson {
        lemma_two_voters(lines, f);
        let (i, j) = choose|i: int, j: int|
            0 <= i < j < lines.len() && vote(#[trigger] lines[i]) == Some(f) && vote(
                #[trigger] lines[j],
            ) == Some(f);
        law_a_vote_bears_its_signature(lines[i]);
        law_a_vote_bears_its_signature(lines[j]);
    }
}

/// Each format is read by the parser of its name. Tables and plain text wait
/// for their header or pattern.
pub proof fn law_each_format_has_its_reader(line: Seq<u8>, fields: Option<&FieldNames>)
    ensures
        LogFormat::Ndjson.reading(line, fields) == parse::ndjson_reading(line, fields),
        LogFormat::Logfmt.reading(line, fields) == parse_logfmt::reading(line, fields),
        LogFormat::Edn.reading(line, fields) == parse_edn::reading(line, fields),
        LogFormat::Python.reading(line, fields) == parse_python::reading(line),
        LogFormat::Syslog.reading(line, fields) == parse_syslog::reading(line),
        LogFormat::Access.reading(line, fields) == parse_access::reading(line),
        LogFormat::Logback.reading(line, fields) == parse_logback::reading(line),
        LogFormat::Journalctl.reading(line, fields) == parse_journalctl::reading(line),
        LogFormat::Csv.reading(line, fields) == (TsOutcome::Missing, severity::UNKNOWN),
        LogFormat::Tsv.reading(line, fields) == (TsOutcome::Missing, severity::UNKNOWN),
        LogFormat::Regex.reading(line, fields) == (TsOutcome::Missing, severity::UNKNOWN),
{
    reveal(LogFormat::reading);
}

/// Each format's fields come from the parser of its name; those of a table from
/// below its headers, those of plain text from what its pattern captured.
pub proof fn law_each_format_has_its_fields(
    line: Seq<u8>,
    key: Seq<char>,
    headers: Seq<Seq<char>>,
    p: Option<Seq<char>>,
)
    ensures
        ({
            let under = |format: LogFormat| Dialect { format, headers, pattern: p };
            &&& under(LogFormat::Ndjson).field(line, key) == (match schema::raw_field(line, key) {
                Some(raw) => Some(schema::unquoted_text(raw)),
                None => None,
            })
            &&& under(LogFormat::Logfmt).field(line, key) == parse_logfmt::field(line, key)
            &&& under(LogFormat::Edn).field(line, key) == parse_edn::field(line, key)
            &&& under(LogFormat::Python).field(line, key) == parse_python::field(line, key)
            &&& under(LogFormat::Syslog).field(line, key) == parse_syslog::field(line, key)
            &&& under(LogFormat::Access).field(line, key) == parse_access::field(line, key)
            &&& under(LogFormat::Logback).field(line, key) == parse_logback::field(line, key)
            &&& under(LogFormat::Journalctl).field(line, key) == parse_journalctl::field(line, key)
            &&& under(LogFormat::Csv).field(line, key) == parse_csv::field(
                line,
                ',' as u8,
                headers,
                key,
            )
            &&& under(LogFormat::Tsv).field(line, key) == parse_csv::field(
                line,
                '\t' as u8,
                headers,
                key,
            )
            &&& under(LogFormat::Regex).field(line, key) == (match p {
                Some(re) => parse_regex::field(re, line, key),
                None => None,
            })
        }),
{
}

/// What continues the record before it: under logfmt and EDN a line that opens
/// with a blank, under Python and logback one that opens with no digit, under
/// syslog one that does not open with `<`, and under any other format none. An
/// empty line continues a record under syslog alone.
pub proof fn law_what_continues_a_record(line: Seq<u8>)
    ensures
        ({
            let first = line[0];
            let some = line.len() > 0;
            &&& LogFormat::Logfmt.continues(line) <==> some && (first == 0x20 || first == 0x09)
            &&& LogFormat::Edn.continues(line) <==> some && (first == 0x20 || first == 0x09)
            &&& LogFormat::Python.continues(line) <==> some && !(0x30 <= first <= 0x39)
            &&& LogFormat::Logback.continues(line) <==> some && !(0x30 <= first <= 0x39)
            &&& LogFormat::Syslog.continues(line) <==> !some || first != 0x3c
            &&& !LogFormat::Ndjson.continues(line)
            &&& !LogFormat::Access.continues(line)
            &&& !LogFormat::Csv.continues(line)
            &&& !LogFormat::Tsv.continues(line)
            &&& !LogFormat::Journalctl.continues(line)
            &&& !LogFormat::Regex.continues(line)
        }),
{
}

/// A special format is elected when it has at least two votes, more than each
/// generic one, and no special format has more; of equal ones syslog, access
/// log, logback and journal go in that order. Else EDN is elected with two votes
/// and more than both others, logfmt with two and more than NDJSON, and NDJSON
/// when nothing else is.
pub proof fn law_the_most_votes_win(lines: Seq<Seq<u8>>, f: LogFormat)
    ensures
        verdict(lines) != LogFormat::Ndjson ==> votes(lines, verdict(lines)) > votes(
            lines,
            LogFormat::Ndjson,
        ),
        (verdict(lines) == LogFormat::Syslog || verdict(lines) == LogFormat::Access || verdict(lines)
            == LogFormat::Logback || verdict(lines) == LogFormat::Journalctl) ==> votes(
            lines,
            verdict(lines),
        ) >= votes(lines, f),
        verdict(lines) == LogFormat::Access || verdict(lines) == LogFormat::Logback || verdict(lines)
            == LogFormat::Journalctl ==> votes(lines, verdict(lines)) > votes(
            lines,
            LogFormat::Syslog,
        ),
        verdict(lines) == LogFormat::Logback || verdict(lines) == LogFormat::Journalctl ==> votes(
            lines,
            verdict(lines),
        ) > votes(lines, LogFormat::Access),
        verdict(lines) == LogFormat::Journalctl ==> votes(lines, verdict(lines)) > votes(
            lines,
            LogFormat::Logback,
        ),
        verdict(lines) == LogFormat::Edn ==> votes(lines, LogFormat::Edn) > votes(
            lines,
            LogFormat::Logfmt,
        ),
        (forall|g: LogFormat| g != f ==> #[trigger] votes(lines, g) < votes(lines, f)) && votes(lines, f)
            >= 2 ==> verdict(lines) == f,
{
    lemma_who_can_vote(lines, LogFormat::Python);
    lemma_who_can_vote(lines, LogFormat::Csv);
    lemma_who_can_vote(lines, LogFormat::Tsv);
    lemma_who_can_vote(lines, LogFormat::Regex);
    if (forall|g: LogFormat| g != f ==> #[trigger] votes(lines, g) < votes(lines, f)) && votes(lines, f)
        >= 2 {
        assert(f == LogFormat::Syslog || votes(lines, LogFormat::Syslog) < votes(lines, f));
        assert(f == LogFormat::Access || votes(lines, LogFormat::Access) < votes(lines, f));
        assert(f == LogFormat::Logback || votes(lines, LogFormat::Logback) < votes(lines, f));
        assert(f == LogFormat::Journalctl || votes(lines, LogFormat::Journalctl) < votes(lines, f));
        assert(f == LogFormat::Ndjson || votes(lines, LogFormat::Ndjson) < votes(lines, f));
        assert(f == LogFormat::Logfmt || votes(lines, LogFormat::Logfmt) < votes(lines, f));
        assert(f == LogFormat::Edn || votes(lines, LogFormat::Edn) < votes(lines, f));
    }
}

proof fn lemma_who_can_vote(lines: Seq<Seq<u8>>, f: LogFormat)
    ensures
        f == LogFormat::Python || f == LogFormat::Csv || f == LogFormat::Tsv || f == LogFormat::Regex
            ==> votes(lines, f) == 0,
    decreases lines.len(),
{
    if lines.len() > 0 {
        lemma_who_can_vote(lines.drop_last(), f);
    }
}

} // verus!
