//! Apache / nginx access log parser (Common Log Format + Combined).
//!
//! Reference: <https://httpd.apache.org/docs/current/logs.html#accesslog>.
//!
//! ```text
//! 1.2.3.4 - - [01/Jun/2026:12:00:00 +0000] "GET /api HTTP/1.1" 200 1234
//! 1.2.3.4 - - [01/Jun/2026:12:00:00 +0000] "GET /api HTTP/1.1" 200 1234 "-" "curl/8.0"
//! ```
//!
//! Layout: `host logname user [timestamp] "request" status bytes`, and in the
//! combined format `"referer" "user_agent"` behind it. `-` stands for an
//! absent value. Inside quotes a backslash takes the byte behind it verbatim.
//!
//! Severity is synthesised from status: 5xx is `ERROR`, 4xx `WARN`, 2xx and
//! 3xx `INFO`, anything else `UNKNOWN`.

use vstd::prelude::*;

use crate::civil;
use crate::scan;
use crate::scan::ByteClass;
use crate::engine::parse;
use crate::engine::parse::{FieldNames, ParseStats, TsOutcome};
use crate::engine::quoted;
use crate::engine::record::severity;
use crate::text;

verus! {

/// The fields of a line.
pub struct Entry {
    pub host: Seq<u8>,
    pub logname: Seq<u8>,
    pub user: Seq<u8>,
    /// Timestamp without its brackets, e.g. `01/Jun/2026:12:00:00 +0000`.
    pub ts_raw: Seq<u8>,
    /// Request line without its quotes.
    pub request: Seq<u8>,
    pub status: Seq<u8>,
    /// A byte count, or `-`.
    pub bytes_field: Seq<u8>,
    pub referer: Option<Seq<u8>>,
    pub user_agent: Option<Seq<u8>>,
}

/// The bytes up to the next space, with the index behind that space.
pub open spec fn token_or_eof(s: Seq<u8>, i: int) -> (Seq<u8>, int) {
    let e = scan::run_end(s, i, ByteClass::Except(' ' as u8));
    (
        s.subrange(i, e),
        if e < s.len() {
            e + 1
        } else {
            e
        },
    )
}

/// Step over one space, if one stands at `i`.
pub open spec fn past_space(s: Seq<u8>, i: int) -> int {
    if i < s.len() && s[i] == ' ' as u8 {
        i + 1
    } else {
        i
    }
}

/// A quoted value read from just behind its opening quote: the value with its
/// escapes resolved and the index behind the closing quote; nothing when it
/// never closes.
pub open spec fn quoted_body(s: Seq<u8>, i: int) -> Option<(Seq<u8>, int)>
    decreases s.len() - i,
{
    if !(0 <= i < s.len()) {
        None
    } else if s[i] == '\\' as u8 && i + 1 < s.len() {
        match quoted_body(s, i + 2) {
            Some((v, e)) => Some((seq![s[i + 1]] + v, e)),
            None => None,
        }
    } else if s[i] == '"' as u8 {
        Some((Seq::empty(), i + 1))
    } else {
        match quoted_body(s, i + 1) {
            Some((v, e)) => Some((seq![s[i]] + v, e)),
            None => None,
        }
    }
}

/// A `"..."` block at `i`.
pub open spec fn quoted_at(s: Seq<u8>, i: int) -> Option<(Seq<u8>, int)> {
    if 0 <= i < s.len() && s[i] == '"' as u8 {
        quoted_body(s, i + 1)
    } else {
        None
    }
}

/// An optional `"..."` block at `i`: absent when no quote stands there, and
/// malformed when one opens and never closes.
pub open spec fn optional_quoted(s: Seq<u8>, i: int) -> Option<(Option<Seq<u8>>, int)> {
    if 0 <= i < s.len() && s[i] == '"' as u8 {
        match quoted_body(s, i + 1) {
            Some((v, e)) => Some((Some(v), e)),
            None => None,
        }
    } else {
        Some((None, i))
    }
}

/// The part of a line from the status on.
pub open spec fn tail(
    s: Seq<u8>,
    i: int,
    host: Seq<u8>,
    logname: Seq<u8>,
    user: Seq<u8>,
    ts_raw: Seq<u8>,
    request: Seq<u8>,
) -> Option<Entry> {
    let (status, i1) = token_or_eof(s, i);
    let (bytes_field, i2) = token_or_eof(s, i1);
    if status.len() == 0 {
        None
    } else {
        match optional_quoted(s, i2) {
            None => None,
            Some((referer, i3)) => match optional_quoted(s, past_space(s, i3)) {
                None => None,
                Some((user_agent, i4)) => Some(
                    Entry {
                        host,
                        logname,
                        user,
                        ts_raw,
                        request,
                        status,
                        bytes_field,
                        referer,
                        user_agent,
                    },
                ),
            },
        }
    }
}

/// The fields of a line, or nothing when it is malformed.
pub open spec fn entry(s: Seq<u8>) -> Option<Entry> {
    let (host, i1) = token_or_eof(s, 0);
    let (logname, i2) = token_or_eof(s, i1);
    let (user, i3) = token_or_eof(s, i2);
    let e = scan::run_end(s, i3 + 1, ByteClass::Except(']' as u8));
    if host.len() == 0 || logname.len() == 0 || user.len() == 0 || i3 >= s.len() || s[i3]
        != '[' as u8 || e >= s.len() {
        None
    } else {
        match quoted_at(s, past_space(s, e + 1)) {
            None => None,
            Some((request, i5)) => tail(
                s,
                past_space(s, i5),
                host,
                logname,
                user,
                s.subrange(i3 + 1, e),
                request,
            ),
        }
    }
}

struct EntryRef<'a> {
    host: &'a [u8],
    logname: &'a [u8],
    user: &'a [u8],
    ts_raw: &'a [u8],
    request: Vec<u8>,
    status: &'a [u8],
    bytes_field: &'a [u8],
    referer: Option<Vec<u8>>,
    user_agent: Option<Vec<u8>>,
}

pub open spec fn opt_bytes(v: Option<Vec<u8>>) -> Option<Seq<u8>> {
    match v {
        Some(x) => Some(x@),
        None => None,
    }
}

impl<'a> EntryRef<'a> {
    spec fn model(self) -> Entry {
        Entry {
            host: self.host@,
            logname: self.logname@,
            user: self.user@,
            ts_raw: self.ts_raw@,
            request: self.request@,
            status: self.status@,
            bytes_field: self.bytes_field@,
            referer: opt_bytes(self.referer),
            user_agent: opt_bytes(self.user_agent),
        }
    }
}

fn next_sp_token_or_eof<'a>(line: &'a [u8], i: usize) -> (r: (&'a [u8], usize))
    requires
        i <= line@.len(),
    ensures
        (r.0@, r.1 as int) == token_or_eof(line@, i as int),
        i <= r.1 <= line@.len(),
{
    let e: usize = scan::skip(line, i, ByteClass::Except(' ' as u8));
    let t: &'a [u8] = &line[i..e];
    if e < line.len() {
        (t, e + 1)
    } else {
        (t, e)
    }
}

fn skip_space(line: &[u8], i: usize) -> (r: usize)
    requires
        i <= line@.len(),
    ensures
        r == past_space(line@, i as int),
        i <= r <= line@.len(),
{
    if i < line.len() && line[i] == ' ' as u8 {
        i + 1
    } else {
        i
    }
}

/// Read a quoted value from just behind its opening quote.
fn read_quoted(line: &[u8], from: usize) -> (r: Option<(Vec<u8>, usize)>)
    requires
        from <= line@.len(),
    ensures
        match r {
            Some((v, e)) => quoted_body(line@, from as int) == Some((v@, e as int)) && from <= e
                <= line@.len(),
            None => quoted_body(line@, from as int) is None,
        },
{
    let ghost whole = quoted_body(line@, from as int);
    let mut out: Vec<u8> = Vec::new();
    let mut i: usize = from;
    proof {
        if whole is Some {
            let v = whole.unwrap().0;
            assert(out@ + v =~= v);
        }
    }
    while i < line.len()
        invariant
            from <= i <= line@.len(),
            whole == quoted_body(line@, from as int),
            match quoted_body(line@, i as int) {
                Some((v, e)) => whole == Some((out@ + v, e)),
                None => whole is None,
            },
        decreases line@.len() - i,
    {
        let ghost before = out@;
        if line[i] == '\\' as u8 && i + 1 < line.len() {
            out.push(line[i + 1]);
            proof {
                if quoted_body(line@, i + 2) is Some {
                    let v = quoted_body(line@, i + 2).unwrap().0;
                    assert(before + (seq![line@[i + 1]] + v) =~= out@ + v);
                }
            }
            i = i + 2;
        } else if line[i] == '"' as u8 {
            assert(out@ + Seq::<u8>::empty() =~= out@);
            return Some((out, i + 1));
        } else {
            out.push(line[i]);
            proof {
                if quoted_body(line@, i + 1) is Some {
                    let v = quoted_body(line@, i + 1).unwrap().0;
                    assert(before + (seq![line@[i as int]] + v) =~= out@ + v);
                }
            }
            i = i + 1;
        }
    }
    None
}

fn read_optional_quoted(line: &[u8], i: usize) -> (r: Option<(Option<Vec<u8>>, usize)>)
    requires
        i <= line@.len(),
    ensures
        match r {
            Some((v, e)) => optional_quoted(line@, i as int) == Some((opt_bytes(v), e as int)) && i
                <= e <= line@.len(),
            None => optional_quoted(line@, i as int) is None,
        },
{
    if i < line.len() && line[i] == '"' as u8 {
        match read_quoted(line, i + 1) {
            Some((v, e)) => Some((Some(v), e)),
            None => None,
        }
    } else {
        Some((None, i))
    }
}

/// Break a line into its fields. `None` on malformed input.
fn parse_line<'a>(line: &'a [u8]) -> (r: Option<EntryRef<'a>>)
    ensures
        match r {
            Some(p) => entry(line@) == Some(p.model()),
            None => entry(line@) is None,
        },
{
    let (host, i) = next_sp_token_or_eof(line, 0);
    let (logname, i) = next_sp_token_or_eof(line, i);
    let (user, i) = next_sp_token_or_eof(line, i);
    if host.len() == 0 || logname.len() == 0 || user.len() == 0 {
        return None;
    }
    if i >= line.len() || line[i] != '[' as u8 {
        return None;
    }
    let e: usize = scan::skip(line, i + 1, ByteClass::Except(']' as u8));
    if e >= line.len() {
        return None;
    }
    let ts_raw: &'a [u8] = &line[i + 1..e];
    let i: usize = skip_space(line, e + 1);
    if i >= line.len() || line[i] != '"' as u8 {
        return None;
    }
    let (request, i) = match read_quoted(line, i + 1) {
        Some(x) => x,
        None => {
            return None;
        },
    };
    let i: usize = skip_space(line, i);
    let (status, i) = next_sp_token_or_eof(line, i);
    if status.len() == 0 {
        return None;
    }
    let (bytes_field, i) = next_sp_token_or_eof(line, i);
    let (referer, i) = match read_optional_quoted(line, i) {
        Some(x) => x,
        None => {
            return None;
        },
    };
    let i: usize = skip_space(line, i);
    let (user_agent, _end) = match read_optional_quoted(line, i) {
        Some(x) => x,
        None => {
            return None;
        },
    };
    Some(
        EntryRef {
            host,
            logname,
            user,
            ts_raw,
            request,
            status,
            bytes_field,
            referer,
            user_agent,
        },
    )
}

/// The number of a three-letter month name.
pub open spec fn month_number(name: Seq<u8>) -> Option<u8> {
    if name == text::enc("Jan"@) {
        Some(1)
    } else if name == text::enc("Feb"@) {
        Some(2)
    } else if name == text::enc("Mar"@) {
        Some(3)
    } else if name == text::enc("Apr"@) {
        Some(4)
    } else if name == text::enc("May"@) {
        Some(5)
    } else if name == text::enc("Jun"@) {
        Some(6)
    } else if name == text::enc("Jul"@) {
        Some(7)
    } else if name == text::enc("Aug"@) {
        Some(8)
    } else if name == text::enc("Sep"@) {
        Some(9)
    } else if name == text::enc("Oct"@) {
        Some(10)
    } else if name == text::enc("Nov"@) {
        Some(11)
    } else if name == text::enc("Dec"@) {
        Some(12)
    } else {
        None
    }
}

fn month_num(name: &[u8]) -> (r: Option<u8>)
    ensures
        r == month_number(name@),
        r matches Some(m) ==> 1 <= m <= 12,
{
    if scan::bytes_eq(name, "Jan".as_bytes()) {
        Some(1)
    } else if scan::bytes_eq(name, "Feb".as_bytes()) {
        Some(2)
    } else if scan::bytes_eq(name, "Mar".as_bytes()) {
        Some(3)
    } else if scan::bytes_eq(name, "Apr".as_bytes()) {
        Some(4)
    } else if scan::bytes_eq(name, "May".as_bytes()) {
        Some(5)
    } else if scan::bytes_eq(name, "Jun".as_bytes()) {
        Some(6)
    } else if scan::bytes_eq(name, "Jul".as_bytes()) {
        Some(7)
    } else if scan::bytes_eq(name, "Aug".as_bytes()) {
        Some(8)
    } else if scan::bytes_eq(name, "Sep".as_bytes()) {
        Some(9)
    } else if scan::bytes_eq(name, "Oct".as_bytes()) {
        Some(10)
    } else if scan::bytes_eq(name, "Nov".as_bytes()) {
        Some(11)
    } else if scan::bytes_eq(name, "Dec".as_bytes()) {
        Some(12)
    } else {
        None
    }
}

/// An Apache timestamp with month number `mon`, rewritten as RFC 3339.
pub open spec fn apache_as_rfc3339(b: Seq<u8>, mon: u8) -> Seq<u8> {
    b.subrange(7, 11) + seq!['-' as u8, (48 + mon / 10) as u8, (48 + mon % 10) as u8, '-' as u8]
        + b.subrange(0, 2) + seq!['T' as u8] + b.subrange(12, 20) + seq![b[21]] + b.subrange(22, 24)
        + seq![':' as u8] + b.subrange(24, 26)
}

/// Microseconds of an Apache timestamp `01/Jun/2026:12:00:00 +0000`; bytes
/// past the offset are ignored.
pub open spec fn apache_time(b: Seq<u8>) -> Option<int> {
    if b.len() < 26 || b[2] != '/' as u8 || b[6] != '/' as u8 || b[11] != ':' as u8 || b[14]
        != ':' as u8 || b[17] != ':' as u8 || b[20] != ' ' as u8 || (b[21] != '+' as u8 && b[21]
        != '-' as u8) {
        None
    } else {
        match month_number(b.subrange(3, 6)) {
            None => None,
            Some(mon) => parse::rfc3339(apache_as_rfc3339(b, mon)),
        }
    }
}

fn parse_apache_time(b: &[u8]) -> (r: Option<i64>)
    ensures
        r is Some <==> apache_time(b@) is Some,
        r matches Some(v) ==> v == apache_time(b@)->0,
{
    if b.len() < 26 {
        return None;
    }
    if b[2] != '/' as u8 || b[6] != '/' as u8 || b[11] != ':' as u8 || b[14] != ':' as u8 || b[17]
        != ':' as u8 || b[20] != ' ' as u8 || (b[21] != '+' as u8 && b[21] != '-' as u8) {
        return None;
    }
    let mon: u8 = match month_num(&b[3..6]) {
        Some(m) => m,
        None => {
            return None;
        },
    };
    let mut rfc: Vec<u8> = Vec::new();
    scan::append(&mut rfc, &b[7..11]);
    rfc.push('-' as u8);
    rfc.push(48 + mon / 10);
    rfc.push(48 + mon % 10);
    rfc.push('-' as u8);
    scan::append(&mut rfc, &b[0..2]);
    rfc.push('T' as u8);
    scan::append(&mut rfc, &b[12..20]);
    rfc.push(b[21]);
    scan::append(&mut rfc, &b[22..24]);
    rfc.push(':' as u8);
    scan::append(&mut rfc, &b[24..26]);
    assert(rfc@ =~= apache_as_rfc3339(b@, mon));
    parse::rfc3339_micros(&rfc)
}

/// Severity of a three-byte status by its first digit.
pub open spec fn status_rank(s: Seq<u8>) -> u8 {
    if s.len() != 3 {
        severity::UNKNOWN
    } else if s[0] == '5' as u8 {
        severity::ERROR
    } else if s[0] == '4' as u8 {
        severity::WARN
    } else if s[0] == '2' as u8 || s[0] == '3' as u8 {
        severity::INFO
    } else {
        severity::UNKNOWN
    }
}

fn severity_from_status(s: &[u8]) -> (r: u8)
    ensures
        r == status_rank(s@),
{
    if s.len() != 3 {
        severity::UNKNOWN
    } else if s[0] == '5' as u8 {
        severity::ERROR
    } else if s[0] == '4' as u8 {
        severity::WARN
    } else if s[0] == '2' as u8 || s[0] == '3' as u8 {
        severity::INFO
    } else {
        severity::UNKNOWN
    }
}

/// The outcome and severity of an access-log line.
pub open spec fn reading(s: Seq<u8>) -> (TsOutcome, u8) {
    match entry(s) {
        None => (TsOutcome::Unparsed, severity::UNKNOWN),
        Some(p) => (
            parse::parsed_or_malformed(apache_time(p.ts_raw)),
            status_rank(p.status),
        ),
    }
}

/// Timestamp and severity of a line.
pub fn ts_and_level(line: &[u8], stats: &mut ParseStats, _fields: Option<&FieldNames>) -> (r: (
    i64,
    u8,
))
    requires
        old(stats).has_room(),
    ensures
        r.0 == reading(line@).0.micros(),
        r.1 == reading(line@).1,
        *final(stats) == old(stats).counting(reading(line@).0),
{
    match parse_line(line) {
        None => (stats.count(TsOutcome::Unparsed), severity::UNKNOWN),
        Some(p) => {
            let sev: u8 = severity_from_status(p.status);
            let outcome: TsOutcome = parse::timed_or_malformed(parse_apache_time(p.ts_raw));
            (stats.count(outcome), sev)
        },
    }
}

/// Which of the three parts of a request line.
pub enum RequestPart {
    Method,
    Uri,
    Protocol,
}

/// A part of a request line split on its first two spaces; nothing when there
/// are fewer, or the line is not text.
pub open spec fn request_part(req: Seq<u8>, part: RequestPart) -> Option<Seq<char>> {
    let a = scan::run_end(req, 0, ByteClass::Except(' ' as u8));
    let b = scan::run_end(req, a + 1, ByteClass::Except(' ' as u8));
    if !vstd::utf8::valid_utf8(req) || a >= req.len() || b >= req.len() {
        None
    } else {
        match part {
            RequestPart::Method => text::decoded(req.subrange(0, a)),
            RequestPart::Uri => text::decoded(req.subrange(a + 1, b)),
            RequestPart::Protocol => text::decoded(req.subrange(b + 1, req.len() as int)),
        }
    }
}

fn split_request(req: &[u8], part: RequestPart) -> (r: Option<String>)
    ensures
        text::opt_view(r) == request_part(req@, part),
{
    if text::from_utf8(req).is_none() {
        return None;
    }
    let a: usize = scan::skip(req, 0, ByteClass::Except(' ' as u8));
    if a >= req.len() {
        return None;
    }
    let b: usize = scan::skip(req, a + 1, ByteClass::Except(' ' as u8));
    if b >= req.len() {
        return None;
    }
    match part {
        RequestPart::Method => text::decode_owned(&req[0..a]),
        RequestPart::Uri => text::decode_owned(&req[a + 1..b]),
        RequestPart::Protocol => text::decode_owned(&req[b + 1..req.len()]),
    }
}

/// A token's text, or nothing for `-`.
pub open spec fn dash_to_none(b: Seq<u8>) -> Option<Seq<char>> {
    if b.len() == 1 && b[0] == '-' as u8 {
        None
    } else {
        Some(text::lossy(b))
    }
}

fn nil_to_str(b: &[u8]) -> (r: Option<String>)
    ensures
        text::opt_view(r) == dash_to_none(b@),
{
    if b.len() == 1 && b[0] == '-' as u8 {
        None
    } else {
        Some(text::from_utf8_lossy(b))
    }
}

pub open spec fn lossy_option(b: Option<Seq<u8>>) -> Option<Seq<char>> {
    match b {
        Some(x) => Some(text::lossy(x)),
        None => None,
    }
}

/// The name of a synthesized severity.
pub open spec fn level_name(rank: u8) -> Seq<char> {
    if rank == severity::UNKNOWN {
        "unknown"@
    } else {
        severity::name_of(rank)
    }
}

/// The text of a field.
pub open spec fn field(s: Seq<u8>, key: Seq<char>) -> Option<Seq<char>> {
    match entry(s) {
        None => None,
        Some(p) => if key == "ip"@ || key == "host"@ {
            Some(text::lossy(p.host))
        } else if key == "logname"@ {
            dash_to_none(p.logname)
        } else if key == "user"@ {
            dash_to_none(p.user)
        } else if key == "request"@ {
            Some(text::lossy(p.request))
        } else if key == "method"@ {
            request_part(p.request, RequestPart::Method)
        } else if key == "uri"@ {
            request_part(p.request, RequestPart::Uri)
        } else if key == "protocol"@ {
            request_part(p.request, RequestPart::Protocol)
        } else if key == "status"@ {
            Some(text::lossy(p.status))
        } else if key == "bytes"@ {
            dash_to_none(p.bytes_field)
        } else if key == "referer"@ {
            lossy_option(p.referer)
        } else if key == "user_agent"@ {
            lossy_option(p.user_agent)
        } else if key == "level"@ {
            Some(level_name(status_rank(p.status)))
        } else {
            None
        },
    }
}

fn optional_text(b: &Option<Vec<u8>>) -> (r: Option<String>)
    ensures
        text::opt_view(r) == lossy_option(opt_bytes(*b)),
{
    match b {
        Some(x) => Some(text::from_utf8_lossy(x)),
        None => None,
    }
}

/// Field projection. Recognised keys:
///
/// - `ip` / `host`: the remote host.
/// - `logname`, `user`: `-` gives `None`.
/// - `request`: the dequoted request line.
/// - `method`, `uri`, `protocol`: split of `request` on the first two spaces.
/// - `status`: the HTTP status.
/// - `bytes`: response size, or `None` when the line had `-`.
/// - `referer`, `user_agent`: combined format only.
/// - `level`: the synthesized severity (`error`, `warn`, `info`, `unknown`).
pub fn project_field(line: &[u8], key: &str) -> (r: Option<String>)
    ensures
        text::opt_view(r) == field(line@, key@),
{
    let p: EntryRef = match parse_line(line) {
        Some(p) => p,
        None => {
            return None;
        },
    };
    if text::str_eq(key, "ip") || text::str_eq(key, "host") {
        Some(text::from_utf8_lossy(p.host))
    } else if text::str_eq(key, "logname") {
        nil_to_str(p.logname)
    } else if text::str_eq(key, "user") {
        nil_to_str(p.user)
    } else if text::str_eq(key, "request") {
        Some(text::from_utf8_lossy(&p.request))
    } else if text::str_eq(key, "method") {
        split_request(&p.request, RequestPart::Method)
    } else if text::str_eq(key, "uri") {
        split_request(&p.request, RequestPart::Uri)
    } else if text::str_eq(key, "protocol") {
        split_request(&p.request, RequestPart::Protocol)
    } else if text::str_eq(key, "status") {
        Some(text::from_utf8_lossy(p.status))
    } else if text::str_eq(key, "bytes") {
        nil_to_str(p.bytes_field)
    } else if text::str_eq(key, "referer") {
        optional_text(&p.referer)
    } else if text::str_eq(key, "user_agent") {
        optional_text(&p.user_agent)
    } else if text::str_eq(key, "level") {
        let rank: u8 = severity_from_status(p.status);
        if rank == severity::UNKNOWN {
            Some("unknown".to_owned())
        } else {
            Some(severity::name(rank).to_owned())
        }
    } else {
        None
    }
}

/// Index of the first `[` at or after `i` with at least three spaces before
/// it, counting from `spaces` seen so far, within the first 80 bytes.
pub open spec fn bracket_at(s: Seq<u8>, i: int, spaces: int) -> Option<int>
    decreases s.len() - i,
{
    if !(0 <= i < s.len()) || i >= 80 {
        None
    } else if s[i] == '[' as u8 && spaces >= 3 {
        Some(i)
    } else {
        bracket_at(
            s,
            i + 1,
            spaces + if s[i] == ' ' as u8 {
                1int
            } else {
                0
            },
        )
    }
}

/// `[DD/MMM/YYYY:HH:MM:SS` separators behind a bracket at `i`, and a `]`
/// within 32 bytes of it.
pub open spec fn bracketed_date(s: Seq<u8>, i: int) -> bool {
    let e = scan::run_end(s, i, ByteClass::Except(']' as u8));
    &&& e < s.len()
    &&& 19 <= e - i < 32
    &&& s[i + 3] == '/' as u8
    &&& s[i + 7] == '/' as u8
    &&& s[i + 12] == ':' as u8
    &&& s[i + 15] == ':' as u8
    &&& s[i + 18] == ':' as u8
}

/// A bracketed date stands behind at least three space-separated tokens.
pub open spec fn has_shape(s: Seq<u8>) -> bool {
    match bracket_at(s, 0, 0) {
        None => false,
        Some(i) => bracketed_date(s, i),
    }
}

/// Heuristic for format detection. The slashes and colons inside the brackets
/// tell an access log from a bracketed thread name.
pub fn looks_like_access(line: &[u8]) -> (r: bool)
    ensures
        r == has_shape(line@),
{
    let mut spaces: usize = 0;
    let mut i: usize = 0;
    while i < line.len() && i < 80
        invariant
            i <= line@.len(),
            spaces <= i,
            bracket_at(line@, 0, 0) == bracket_at(line@, i as int, spaces as int),
        decreases line@.len() - i,
    {
        if line[i] == '[' as u8 && spaces >= 3 {
            let e: usize = scan::skip(line, i, ByteClass::Except(']' as u8));
            return e < line.len() && e - i >= 19 && e - i < 32 && line[i + 3] == '/' as u8 && line[i
                + 7] == '/' as u8 && line[i + 12] == ':' as u8 && line[i + 15] == ':' as u8
                && line[i + 18] == ':' as u8;
        }
        if line[i] == ' ' as u8 {
            spaces = spaces + 1;
        }
        i = i + 1;
    }
    false
}

/// A reading's severity is a rank, and a time in it is no mark of an untimed
/// record.
pub proof fn lemma_reading_sound(s: Seq<u8>)
    ensures
        parse::is_sound(reading(s)),
{
    if let Some(p) = entry(s) {
        if apache_time(p.ts_raw) is Some {
            parse::lemma_rfc3339_range(
                apache_as_rfc3339(p.ts_raw, month_number(p.ts_raw.subrange(3, 6))->0),
            );
        }
    }
}

/// The names of the months, three letters each, in order.
pub open spec fn month_names() -> Seq<u8> {
    text::enc("JanFebMarAprMayJunJulAugSepOctNovDec"@)
}

proof fn lemma_month_names()
    ensures
        month_names().len() == 36,
        month_names().subrange(0, 3) =~= text::enc("Jan"@),
        month_names().subrange(3, 6) =~= text::enc("Feb"@),
        month_names().subrange(6, 9) =~= text::enc("Mar"@),
        month_names().subrange(9, 12) =~= text::enc("Apr"@),
        month_names().subrange(12, 15) =~= text::enc("May"@),
        month_names().subrange(15, 18) =~= text::enc("Jun"@),
        month_names().subrange(18, 21) =~= text::enc("Jul"@),
        month_names().subrange(21, 24) =~= text::enc("Aug"@),
        month_names().subrange(24, 27) =~= text::enc("Sep"@),
        month_names().subrange(27, 30) =~= text::enc("Oct"@),
        month_names().subrange(30, 33) =~= text::enc("Nov"@),
        month_names().subrange(33, 36) =~= text::enc("Dec"@),
{
    reveal_strlit("JanFebMarAprMayJunJulAugSepOctNovDec");
    text::lemma_ascii_literal("JanFebMarAprMayJunJulAugSepOctNovDec");
    reveal_strlit("Jan");
    text::lemma_ascii_literal("Jan");
    reveal_strlit("Feb");
    text::lemma_ascii_literal("Feb");
    reveal_strlit("Mar");
    text::lemma_ascii_literal("Mar");
    reveal_strlit("Apr");
    text::lemma_ascii_literal("Apr");
    reveal_strlit("May");
    text::lemma_ascii_literal("May");
    reveal_strlit("Jun");
    text::lemma_ascii_literal("Jun");
    reveal_strlit("Jul");
    text::lemma_ascii_literal("Jul");
    reveal_strlit("Aug");
    text::lemma_ascii_literal("Aug");
    reveal_strlit("Sep");
    text::lemma_ascii_literal("Sep");
    reveal_strlit("Oct");
    text::lemma_ascii_literal("Oct");
    reveal_strlit("Nov");
    text::lemma_ascii_literal("Nov");
    reveal_strlit("Dec");
    text::lemma_ascii_literal("Dec");
}

/// The m-th name of the row of months has the number m, and no other text has
/// a number.
pub proof fn law_months_are_numbered_in_order(name: Seq<u8>)
    ensures
        forall|m: int|
            1 <= m <= 12 && name == #[trigger] month_names().subrange(3 * m - 3, 3 * m)
                ==> month_number(name) == Some(m as u8),
        month_number(name) matches Some(m) ==> 1 <= m <= 12 && name == month_names().subrange(
            3 * m - 3,
            3 * m as int,
        ),
{
    lemma_month_names();
    let all = month_names();
    assert(all[0] == 'J' as u8 && all[1] == 'a' as u8 && all[2] == 'n' as u8) by {
        reveal_strlit("JanFebMarAprMayJunJulAugSepOctNovDec");
        text::lemma_ascii_literal("JanFebMarAprMayJunJulAugSepOctNovDec");
    }
    assert forall|m: int|
        1 <= m <= 12 && name == #[trigger] all.subrange(
            3 * m - 3,
            3 * m,
        ) implies month_number(name) == Some(m as u8) by {
        lemma_months_differ(m);
    }
}

/// The months have different names.
proof fn lemma_months_differ(m: int)
    requires
        1 <= m <= 12,
    ensures
        month_number(month_names().subrange(3 * m - 3, 3 * m)) == Some(m as u8),
{
    lemma_month_names();
    let all = month_names();
    let name = all.subrange(3 * m - 3, 3 * m);
    assert(name[0] == all[3 * m - 3] && name[1] == all[3 * m - 2] && name[2] == all[3 * m - 1]);
    reveal_strlit("JanFebMarAprMayJunJulAugSepOctNovDec");
    text::lemma_ascii_literal("JanFebMarAprMayJunJulAugSepOctNovDec");
    assert(forall|j: int|
        0 <= j < 12 ==> (#[trigger] all.subrange(3 * j, 3 * j + 3))[0] == all[3 * j] && all.subrange(
            3 * j,
            3 * j + 3,
        )[1] == all[3 * j + 1] && all.subrange(3 * j, 3 * j + 3)[2] == all[3 * j + 2]);
    assert(all.subrange(0, 3)[0] == 'J' as u8 && all.subrange(0, 3)[1] == 'a' as u8);
    assert(all.subrange(3, 6)[0] == 'F' as u8);
    assert(all.subrange(6, 9)[0] == 'M' as u8 && all.subrange(6, 9)[2] == 'r' as u8);
    assert(all.subrange(9, 12)[0] == 'A' as u8 && all.subrange(9, 12)[1] == 'p' as u8);
    assert(all.subrange(12, 15)[0] == 'M' as u8 && all.subrange(12, 15)[2] == 'y' as u8);
    assert(all.subrange(15, 18)[0] == 'J' as u8 && all.subrange(15, 18)[1] == 'u' as u8
        && all.subrange(15, 18)[2] == 'n' as u8);
    assert(all.subrange(18, 21)[0] == 'J' as u8 && all.subrange(18, 21)[2] == 'l' as u8);
    assert(all.subrange(21, 24)[0] == 'A' as u8 && all.subrange(21, 24)[1] == 'u' as u8);
    assert(all.subrange(24, 27)[0] == 'S' as u8);
    assert(all.subrange(27, 30)[0] == 'O' as u8);
    assert(all.subrange(30, 33)[0] == 'N' as u8);
    assert(all.subrange(33, 36)[0] == 'D' as u8);
}

/// `DD/Mon/YYYY:HH:MM:SS ±hhmm` is the instant that its parts name: the day of
/// the calendar, the time of that day, less the offset.
pub proof fn law_apache_time_is_its_instant(b: Seq<u8>, month: int)
    requires
        b.len() >= 26,
        b[2] == '/' as u8,
        b[6] == '/' as u8,
        b[11] == ':' as u8,
        b[14] == ':' as u8,
        b[17] == ':' as u8,
        b[20] == ' ' as u8,
        b[21] == '+' as u8 || b[21] == '-' as u8,
        1 <= month <= 12,
        b.subrange(3, 6) == month_names().subrange(3 * month - 3, 3 * month),
        parse::number(b, 0, 2) is Some,
        parse::number(b, 7, 11) is Some,
        1 <= parse::number(b, 0, 2)->0 <= civil::month_days(parse::number(b, 7, 11)->0, month),
        parse::number(b, 12, 14) is Some && parse::number(b, 12, 14)->0 <= 23,
        parse::number(b, 15, 17) is Some && parse::number(b, 15, 17)->0 <= 59,
        parse::number(b, 18, 20) is Some && parse::number(b, 18, 20)->0 <= 60,
        parse::number(b, 22, 24) is Some && parse::number(b, 22, 24)->0 <= 23,
        parse::number(b, 24, 26) is Some && parse::number(b, 24, 26)->0 <= 59,
    ensures
        ({
            let day = civil::epoch_day(
                parse::number(b, 7, 11)->0,
                month,
                parse::number(b, 0, 2)->0,
            );
            let clock = parse::number(b, 12, 14)->0 * 3_600 + parse::number(b, 15, 17)->0 * 60
                + parse::number(b, 18, 20)->0;
            let offset = parse::number(b, 22, 24)->0 * 3_600 + parse::number(b, 24, 26)->0 * 60;
            apache_time(b) == Some(
                (day * 86_400 + clock - if b[21] == '+' as u8 {
                    offset
                } else {
                    -offset
                }) * 1_000_000,
            )
        }),
{
    law_months_are_numbered_in_order(b.subrange(3, 6));
    assert(month_number(b.subrange(3, 6)) == Some(month as u8));
    let mon = month as u8;
    let r = apache_as_rfc3339(b, mon);
    assert(r.len() == 25);
    assert(r.subrange(0, 4) =~= b.subrange(7, 11));
    assert(r[4] == '-' as u8 && r[7] == '-' as u8 && r[10] == 'T' as u8);
    assert(r[5] == 48 + mon / 10 && r[6] == 48 + mon % 10);
    parse::lemma_number_pair(r, 5);
    assert(parse::number(r, 5, 7) == Some(month));
    assert(r.subrange(8, 10) =~= b.subrange(0, 2));
    assert(r.subrange(11, 13) =~= b.subrange(12, 14));
    assert(r[13] == b[14] && r[16] == b[17] && r[19] == b[21] && r[22] == ':' as u8);
    assert(r.subrange(14, 16) =~= b.subrange(15, 17));
    assert(r.subrange(17, 19) =~= b.subrange(18, 20));
    assert(r.subrange(20, 22) =~= b.subrange(22, 24));
    assert(r.subrange(23, 25) =~= b.subrange(24, 26));
}

/// A text between quotes, with its escapes.
#[verifier::opaque]
pub open spec fn in_quotes(v: Seq<u8>) -> Seq<u8> {
    seq!['"' as u8] + (quoted::escaped(v) + seq!['"' as u8])
}

proof fn lemma_escaped_is_read(s: Seq<u8>, i: int, v: Seq<u8>)
    requires
        scan::stands(s, i, quoted::escaped(v) + seq!['"' as u8]),
    ensures
        quoted_body(s, i) == Some((v, i + quoted::escaped(v).len() + 1)),
    decreases v.len(),
{
    let close = seq!['"' as u8];
    let written = quoted::escaped(v) + close;
    if v.len() == 0 {
        assert(written =~= close);
        scan::lemma_stands_byte(s, i, close, 0);
        assert(quoted_body(s, i).unwrap().0 =~= v);
    } else {
        let rest = v.skip(1);
        let after = quoted::escaped(rest) + close;
        if v[0] == '"' as u8 || v[0] == '\\' as u8 {
            let pair = seq!['\\' as u8, v[0]];
            assert(written =~= pair + after);
            scan::lemma_halves(s, i, pair, after);
            scan::lemma_stands_byte(s, i, pair, 0);
            scan::lemma_stands_byte(s, i, pair, 1);
            lemma_escaped_is_read(s, i + 2, rest);
            assert(seq![v[0]] + rest =~= v);
        } else {
            let one = seq![v[0]];
            assert(written =~= one + after);
            scan::lemma_halves(s, i, one, after);
            scan::lemma_stands_byte(s, i, one, 0);
            lemma_escaped_is_read(s, i + 1, rest);
            assert(one + rest =~= v);
        }
    }
}

proof fn lemma_in_quotes_is_read(s: Seq<u8>, i: int, v: Seq<u8>)
    requires
        scan::stands(s, i, in_quotes(v)),
    ensures
        quoted_at(s, i) == Some((v, i + in_quotes(v).len())),
        optional_quoted(s, i) == Some((Some(v), i + in_quotes(v).len())),
{
    reveal(in_quotes);
    let open = seq!['"' as u8];
    scan::lemma_halves(s, i, open, quoted::escaped(v) + seq!['"' as u8]);
    scan::lemma_stands_byte(s, i, open, 0);
    lemma_escaped_is_read(s, i + 1, v);
}

/// A token that a line can hold: not empty, with no space in it.
pub open spec fn is_token(t: Seq<u8>) -> bool {
    t.len() > 0 && forall|k: int| 0 <= k < t.len() ==> #[trigger] t[k] != ' ' as u8
}

proof fn lemma_token_is_read(s: Seq<u8>, i: int, t: Seq<u8>)
    requires
        is_token(t),
        scan::stands(s, i, t),
        i + t.len() < s.len() ==> s[i + t.len()] == ' ' as u8,
    ensures
        token_or_eof(s, i) == (
            t,
            if i + t.len() < s.len() {
                i + t.len() + 1
            } else {
                i + t.len()
            },
        ),
        i + t.len() <= s.len(),
{
    scan::lemma_stands_run(s, i, t, ByteClass::Except(' ' as u8));
    scan::lemma_stands_subrange(s, i, t);
    scan::lemma_stands_byte(s, i, t, t.len() - 1);
}

/// The last part of a combined line: a space and the two quoted texts.
pub open spec fn combined_end(extra: Option<(Seq<u8>, Seq<u8>)>) -> Seq<u8> {
    match extra {
        Some((referer, agent)) => seq![' ' as u8] + (in_quotes(referer) + (seq![' ' as u8]
            + in_quotes(agent))),
        None => Seq::empty(),
    }
}

/// A line from its status on.
#[verifier::opaque]
pub open spec fn written_tail(e: Entry, extra: Option<(Seq<u8>, Seq<u8>)>) -> Seq<u8> {
    e.status + (seq![' ' as u8] + (e.bytes_field + combined_end(extra)))
}

/// A line from the space behind its user on.
#[verifier::opaque]
pub open spec fn written_rest(e: Entry, extra: Option<(Seq<u8>, Seq<u8>)>) -> Seq<u8> {
    seq![' ' as u8, '[' as u8] + (e.ts_raw + (seq![']' as u8, ' ' as u8] + (in_quotes(e.request) + (
    seq![' ' as u8] + written_tail(e, extra)))))
}

/// A line written from its parts; `extra` is what the combined format adds.
pub open spec fn written_line(e: Entry, extra: Option<(Seq<u8>, Seq<u8>)>) -> Seq<u8> {
    e.host + (seq![' ' as u8] + (e.logname + (seq![' ' as u8] + (e.user + written_rest(e, extra)))))
}

/// Parts that a line can be written from: tokens hold no space, the timestamp
/// no closing bracket, and the last two quoted texts stand there or do not.
pub open spec fn is_writable(e: Entry, extra: Option<(Seq<u8>, Seq<u8>)>) -> bool {
    &&& is_token(e.host)
    &&& is_token(e.logname)
    &&& is_token(e.user)
    &&& is_token(e.status)
    &&& is_token(e.bytes_field)
    &&& forall|k: int| 0 <= k < e.ts_raw.len() ==> #[trigger] e.ts_raw[k] != ']' as u8
    &&& e.referer == (match extra {
        Some((r, a)) => Some(r),
        None => None,
    })
    &&& e.user_agent == (match extra {
        Some((r, a)) => Some(a),
        None => None,
    })
}

/// A line gives back what it was written from: each part in its own field,
/// whatever quotes, backslashes and spaces the quoted ones hold.
pub proof fn law_written_line_is_read(e: Entry, extra: Option<(Seq<u8>, Seq<u8>)>)
    requires
        is_writable(e, extra),
    ensures
        entry(written_line(e, extra)) == Some(e),
{
    let s = written_line(e, extra);
    lemma_head_is_read(e, extra);
    lemma_rest_is_read(
        s,
        e.host.len() as int + 1 + e.logname.len() + 1 + e.user.len(),
        e,
        extra,
    );
}

/// The first three tokens.
proof fn lemma_head_is_read(e: Entry, extra: Option<(Seq<u8>, Seq<u8>)>)
    requires
        is_writable(e, extra),
    ensures
        ({
            let s = written_line(e, extra);
            let i1: int = e.host.len() as int;
            let i2: int = i1 + 1 + e.logname.len();
            let i3: int = i2 + 1 + e.user.len();
            &&& token_or_eof(s, 0) == (e.host, i1 + 1)
            &&& token_or_eof(s, i1 + 1) == (e.logname, i2 + 1)
            &&& token_or_eof(s, i2 + 1) == (e.user, i3 + 1)
            &&& scan::stands(s, 0, e.host)
            &&& scan::stands(s, i1 + 1, e.logname)
            &&& scan::stands(s, i2 + 1, e.user)
            &&& scan::stands(s, i3, written_rest(e, extra))
            &&& i3 + written_rest(e, extra).len() == s.len()
            &&& i3 < s.len()
            &&& s[i1] == ' ' as u8
            &&& s[i2] == ' ' as u8
            &&& s[i3] == ' ' as u8
        }),
{
    let s = written_line(e, extra);
    let sp = seq![' ' as u8];
    let r5 = written_rest(e, extra);
    let r4 = sp + (e.user + r5);
    scan::lemma_whole(s);
    scan::lemma_halves(s, 0, e.host, sp + (e.logname + r4));
    let i1: int = e.host.len() as int;
    scan::lemma_halves(s, i1, sp, e.logname + r4);
    scan::lemma_stands_byte(s, i1, sp, 0);
    scan::lemma_halves(s, i1 + 1, e.logname, r4);
    let i2: int = i1 + 1 + e.logname.len();
    scan::lemma_halves(s, i2, sp, e.user + r5);
    scan::lemma_stands_byte(s, i2, sp, 0);
    scan::lemma_halves(s, i2 + 1, e.user, r5);
    let i3: int = i2 + 1 + e.user.len();
    lemma_rest_is_read(s, i3, e, extra);
    lemma_token_is_read(s, 0, e.host);
    lemma_token_is_read(s, i1 + 1, e.logname);
    lemma_token_is_read(s, i2 + 1, e.user);
}

/// The timestamp, the request and what follows them.
proof fn lemma_rest_is_read(s: Seq<u8>, i: int, e: Entry, extra: Option<(Seq<u8>, Seq<u8>)>)
    requires
        is_token(e.status),
        is_token(e.bytes_field),
        forall|k: int| 0 <= k < e.ts_raw.len() ==> #[trigger] e.ts_raw[k] != ']' as u8,
        e.referer == (match extra {
            Some((r, a)) => Some(r),
            None => None,
        }),
        e.user_agent == (match extra {
            Some((r, a)) => Some(a),
            None => None,
        }),
        scan::stands(s, i, written_rest(e, extra)),
        i + written_rest(e, extra).len() == s.len(),
    ensures
        0 <= i,
        i + 1 < s.len(),
        s[i] == ' ' as u8,
        s[i + 1] == '[' as u8,
        ({
            let end = scan::run_end(s, i + 2, ByteClass::Except(']' as u8));
            &&& end < s.len()
            &&& s.subrange(i + 2, end) == e.ts_raw
            &&& quoted_at(s, past_space(s, end + 1)) matches Some((request, after))
            &&& tail(s, past_space(s, after), e.host, e.logname, e.user, e.ts_raw, request) == Some(e)
        }),
{
    reveal(written_rest);
    let sp = seq![' ' as u8];
    let open = seq![' ' as u8, '[' as u8];
    let close = seq![']' as u8, ' ' as u8];
    let r7 = sp + written_tail(e, extra);
    let r6 = close + (in_quotes(e.request) + r7);
    scan::lemma_halves(s, i, open, e.ts_raw + r6);
    scan::lemma_stands_byte(s, i, open, 0);
    scan::lemma_stands_byte(s, i, open, 1);
    scan::lemma_halves(s, i + 2, e.ts_raw, r6);
    let i4: int = i + 2 + e.ts_raw.len();
    scan::lemma_halves(s, i4, close, in_quotes(e.request) + r7);
    scan::lemma_stands_byte(s, i4, close, 0);
    scan::lemma_stands_byte(s, i4, close, 1);
    scan::lemma_halves(s, i4 + 2, in_quotes(e.request), r7);
    let i5: int = i4 + 2 + in_quotes(e.request).len();
    scan::lemma_halves(s, i5, sp, written_tail(e, extra));
    scan::lemma_stands_byte(s, i5, sp, 0);
    scan::lemma_stands_run(s, i + 2, e.ts_raw, ByteClass::Except(']' as u8));
    scan::lemma_stands_subrange(s, i + 2, e.ts_raw);
    lemma_in_quotes_is_read(s, i4 + 2, e.request);
    lemma_tail_is_read(s, i5 + 1, e, extra);
    assert(past_space(s, i4 + 1) == i4 + 2);
    assert(past_space(s, i5) == i5 + 1);
}

proof fn lemma_tail_is_read(s: Seq<u8>, i: int, e: Entry, extra: Option<(Seq<u8>, Seq<u8>)>)
    requires
        is_token(e.status),
        is_token(e.bytes_field),
        e.referer == (match extra {
            Some((r, a)) => Some(r),
            None => None,
        }),
        e.user_agent == (match extra {
            Some((r, a)) => Some(a),
            None => None,
        }),
        scan::stands(s, i, written_tail(e, extra)),
        i + written_tail(e, extra).len() == s.len(),
    ensures
        tail(s, i, e.host, e.logname, e.user, e.ts_raw, e.request) == Some(e),
{
    reveal(written_tail);
    let sp = seq![' ' as u8];
    let end = combined_end(extra);
    scan::lemma_halves(s, i, e.status, sp + (e.bytes_field + end));
    let j: int = i + e.status.len();
    scan::lemma_halves(s, j, sp, e.bytes_field + end);
    scan::lemma_stands_byte(s, j, sp, 0);
    scan::lemma_halves(s, j + 1, e.bytes_field, end);
    let k: int = j + 1 + e.bytes_field.len();
    lemma_token_is_read(s, i, e.status);
    if let Some((referer, agent)) = extra {
        scan::lemma_halves(s, k, sp, in_quotes(referer) + (sp + in_quotes(agent)));
        scan::lemma_stands_byte(s, k, sp, 0);
        scan::lemma_halves(s, k + 1, in_quotes(referer), sp + in_quotes(agent));
        let n: int = k + 1 + in_quotes(referer).len();
        scan::lemma_halves(s, n, sp, in_quotes(agent));
        scan::lemma_stands_byte(s, n, sp, 0);
        lemma_token_is_read(s, j + 1, e.bytes_field);
        lemma_in_quotes_is_read(s, k + 1, referer);
        lemma_in_quotes_is_read(s, n + 1, agent);
    } else {
        lemma_token_is_read(s, j + 1, e.bytes_field);
    }
}

/// What a written line is read as: its instant, a severity by the hundreds of
/// its status, and each part under its name. `-` is no value.
pub proof fn law_written_line_gives_its_parts(e: Entry, extra: Option<(Seq<u8>, Seq<u8>)>)
    requires
        is_writable(e, extra),
    ensures
        ({
            let s = written_line(e, extra);
            let code = scan::decimal(e.status);
            &&& reading(s).0 == (match apache_time(e.ts_raw) {
                Some(t) => TsOutcome::Timed(t as i64),
                None => TsOutcome::Malformed,
            })
            &&& scan::all_digits(e.status) && e.status.len() == 3 ==> reading(s).1 == (if 500 <= code
                < 600 {
                severity::ERROR
            } else if 400 <= code < 500 {
                severity::WARN
            } else if 200 <= code < 400 {
                severity::INFO
            } else {
                severity::UNKNOWN
            })
            &&& e.status.len() != 3 ==> reading(s).1 == severity::UNKNOWN
            &&& field(s, "ip"@) == Some(text::lossy(e.host))
            &&& field(s, "host"@) == field(s, "ip"@)
            &&& field(s, "status"@) == Some(text::lossy(e.status))
            &&& field(s, "request"@) == Some(text::lossy(e.request))
            &&& e.logname == seq!['-' as u8] ==> field(s, "logname"@) is None
            &&& e.logname != seq!['-' as u8] ==> field(s, "logname"@) == Some(text::lossy(e.logname))
            &&& e.user == seq!['-' as u8] ==> field(s, "user"@) is None
            &&& e.user != seq!['-' as u8] ==> field(s, "user"@) == Some(text::lossy(e.user))
            &&& e.bytes_field == seq!['-' as u8] ==> field(s, "bytes"@) is None
            &&& e.bytes_field != seq!['-' as u8] ==> field(s, "bytes"@) == Some(
                text::lossy(e.bytes_field),
            )
            &&& field(s, "referer"@) == (match e.referer {
                Some(v) => Some(text::lossy(v)),
                None => None,
            })
            &&& field(s, "user_agent"@) == (match e.user_agent {
                Some(v) => Some(text::lossy(v)),
                None => None,
            })
            &&& field(s, "level"@) == Some(
                if reading(s).1 == severity::ERROR {
                    "error"@
                } else if reading(s).1 == severity::WARN {
                    "warn"@
                } else if reading(s).1 == severity::INFO {
                    "info"@
                } else {
                    "unknown"@
                },
            )
        }),
{
    law_written_line_is_read(e, extra);
    lemma_keys();
    let st = e.status;
    if scan::all_digits(st) && st.len() == 3 {
        reveal_with_fuel(scan::decimal, 4);
        assert(st.drop_last().drop_last().drop_last() =~= Seq::empty());
        assert(st.drop_last().drop_last().last() == st[0]);
        assert(st.drop_last().last() == st[1]);
        assert(ByteClass::Digit.has(st[0]) && ByteClass::Digit.has(st[1]) && ByteClass::Digit.has(
            st[2],
        ));
        assert(scan::decimal(st.drop_last().drop_last()) == st[0] - 48);
        assert(scan::decimal(st.drop_last()) == (st[0] - 48) * 10 + (st[1] - 48));
        assert(scan::decimal(st) == (st[0] - 48) * 100 + (st[1] - 48) * 10 + (st[2] - 48));
    }
    if e.logname.len() == 1 && e.logname[0] == '-' as u8 {
        assert(e.logname =~= seq!['-' as u8]);
    }
    if e.user.len() == 1 && e.user[0] == '-' as u8 {
        assert(e.user =~= seq!['-' as u8]);
    }
    if e.bytes_field.len() == 1 && e.bytes_field[0] == '-' as u8 {
        assert(e.bytes_field =~= seq!['-' as u8]);
    }
}

/// The names of the fields differ.
proof fn lemma_keys()
    ensures
        "ip"@.len() == 2,
        "host"@.len() == 4 && "host"@[0] == 'h',
        "user"@.len() == 4 && "user"@[0] == 'u',
        "uri"@.len() == 3,
        "bytes"@.len() == 5 && "bytes"@[0] == 'b',
        "level"@.len() == 5 && "level"@[0] == 'l',
        "method"@.len() == 6 && "method"@[0] == 'm',
        "status"@.len() == 6 && "status"@[0] == 's',
        "logname"@.len() == 7 && "logname"@[0] == 'l',
        "request"@.len() == 7 && "request"@[0] == 'r' && "request"@[2] == 'q',
        "referer"@.len() == 7 && "referer"@[0] == 'r' && "referer"@[2] == 'f',
        "protocol"@.len() == 8,
        "user_agent"@.len() == 10,
{
    reveal_strlit("ip");
    reveal_strlit("host");
    reveal_strlit("user");
    reveal_strlit("uri");
    reveal_strlit("bytes");
    reveal_strlit("level");
    reveal_strlit("method");
    reveal_strlit("status");
    reveal_strlit("logname");
    reveal_strlit("request");
    reveal_strlit("referer");
    reveal_strlit("protocol");
    reveal_strlit("user_agent");
}

/// A request of three words gives each under its name.
pub proof fn law_request_words(s: Seq<u8>, e: Entry, method: Seq<char>, uri: Seq<char>, protocol: Seq<char>)
    requires
        entry(s) == Some(e),
        e.request == text::enc(method) + (seq![' ' as u8] + (text::enc(uri) + (seq![' ' as u8]
            + text::enc(protocol)))),
        forall|k: int| 0 <= k < text::enc(method).len() ==> #[trigger] text::enc(method)[k] != ' ' as u8,
        forall|k: int| 0 <= k < text::enc(uri).len() ==> #[trigger] text::enc(uri)[k] != ' ' as u8,
    ensures
        field(s, "method"@) == Some(method),
        field(s, "uri"@) == Some(uri),
        field(s, "protocol"@) == Some(protocol),
{
    lemma_keys();
    let sp = seq![' ' as u8];
    let (m, u, p) = (text::enc(method), text::enc(uri), text::enc(protocol));
    let q = e.request;
    scan::lemma_whole(q);
    scan::lemma_halves(q, 0, m, sp + (u + (sp + p)));
    let a: int = m.len() as int;
    scan::lemma_halves(q, a, sp, u + (sp + p));
    scan::lemma_stands_byte(q, a, sp, 0);
    scan::lemma_halves(q, a + 1, u, sp + p);
    let b: int = a + 1 + u.len();
    scan::lemma_halves(q, b, sp, p);
    scan::lemma_stands_byte(q, b, sp, 0);
    scan::lemma_stands_run(q, 0, m, ByteClass::Except(' ' as u8));
    scan::lemma_stands_run(q, a + 1, u, ByteClass::Except(' ' as u8));
    scan::lemma_stands_subrange(q, 0, m);
    scan::lemma_stands_subrange(q, a + 1, u);
    scan::lemma_stands_subrange(q, b + 1, p);
    text::lemma_lossy_of_text(method);
    text::lemma_lossy_of_text(uri);
    text::lemma_lossy_of_text(protocol);
    let space = seq![' '];
    assert(text::enc(space) =~= sp) by {
        reveal_strlit(" ");
        text::lemma_ascii_literal(" ");
        assert(" "@ =~= space);
    }
    text::lemma_lossy_of_text(space);
    vstd::utf8::valid_utf8_concat(sp, p);
    vstd::utf8::valid_utf8_concat(u, sp + p);
    vstd::utf8::valid_utf8_concat(sp, u + (sp + p));
    vstd::utf8::valid_utf8_concat(m, sp + (u + (sp + p)));
}

/// A written line is told by the date in its brackets, where these open in the
/// first 80 bytes.
pub proof fn law_written_line_has_the_shape(e: Entry, extra: Option<(Seq<u8>, Seq<u8>)>)
    requires
        is_writable(e, extra),
        19 <= e.ts_raw.len() + 1 < 32,
        e.ts_raw.len() >= 18,
        e.ts_raw[2] == '/' as u8,
        e.ts_raw[6] == '/' as u8,
        e.ts_raw[11] == ':' as u8,
        e.ts_raw[14] == ':' as u8,
        e.ts_raw[17] == ':' as u8,
        e.host.len() + e.logname.len() + e.user.len() + 3 < 80,
    ensures
        has_shape(written_line(e, extra)),
{
    let s = written_line(e, extra);
    let i1: int = e.host.len() as int;
    let i2: int = i1 + 1 + e.logname.len();
    let i3: int = i2 + 1 + e.user.len();
    lemma_head_is_read(e, extra);
    lemma_rest_is_read(s, i3, e, extra);
    lemma_token_counted(s, 0, e.host, 0);
    lemma_token_counted(s, i1 + 1, e.logname, 1);
    lemma_token_counted(s, i2 + 1, e.user, 2);
    assert(bracket_at(s, 0, 0) == Some(i3 + 1));
    let end = scan::run_end(s, i3 + 2, ByteClass::Except(']' as u8));
    scan::lemma_run_end(s, i3 + 2, ByteClass::Except(']' as u8));
    assert(scan::run_end(s, i3 + 1, ByteClass::Except(']' as u8)) == end);
    let t = e.ts_raw;
    assert(s.subrange(i3 + 2, end).len() == t.len());
    assert(s[i3 + 4] == s.subrange(i3 + 2, end)[2]);
    assert(s[i3 + 8] == s.subrange(i3 + 2, end)[6]);
    assert(s[i3 + 13] == s.subrange(i3 + 2, end)[11]);
    assert(s[i3 + 16] == s.subrange(i3 + 2, end)[14]);
    assert(s[i3 + 19] == s.subrange(i3 + 2, end)[17]);
}

/// A token and the space behind it, before the third space, open no bracket.
proof fn lemma_token_counted(s: Seq<u8>, i: int, t: Seq<u8>, spaces: int)
    requires
        scan::stands(s, i, t),
        is_token(t),
        0 <= spaces < 3,
        i + t.len() < 80,
        i + t.len() < s.len(),
        s[i + t.len()] == ' ' as u8,
    ensures
        bracket_at(s, i, spaces) == bracket_at(s, i + t.len() + 1, spaces + 1),
{
    lemma_no_space(s, i, t, spaces);
    scan::lemma_stands_byte(s, i, t, 0);
}

proof fn lemma_no_space(s: Seq<u8>, i: int, t: Seq<u8>, spaces: int)
    requires
        scan::stands(s, i, t),
        forall|k: int| 0 <= k < t.len() ==> #[trigger] t[k] != ' ' as u8,
        0 <= spaces < 3,
        i + t.len() < 80,
    ensures
        bracket_at(s, i, spaces) == bracket_at(s, i + t.len(), spaces),
    decreases t.len(),
{
    if t.len() > 0 {
        let one = seq![t[0]];
        let rest = t.skip(1);
        assert(t =~= one + rest);
        scan::lemma_halves(s, i, one, rest);
        scan::lemma_stands_byte(s, i, one, 0);
        assert forall|k: int| 0 <= k < rest.len() implies #[trigger] rest[k] != ' ' as u8 by {
            assert(rest[k] == t[k + 1]);
        }
        lemma_no_space(s, i + 1, rest, spaces);
    }
}

} // verus!
