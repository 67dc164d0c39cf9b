//! Syslog RFC 5424 parser.
//!
//! Reference: <https://datatracker.ietf.org/doc/html/rfc5424>.
//!
//! Line shape:
//!
//! ```text
//! <PRI>VERSION TIMESTAMP HOSTNAME APP-NAME PROCID MSGID STRUCTURED-DATA MSG
//! <134>1 2026-06-01T12:00:00.123Z host01 my.app 1234 - - server started
//! <131>1 2026-06-01T12:00:01.456Z host01 my.app 1234 audit [origin ip="10.0.0.1"] DB timeout
//! ```
//!
//! - PRI = facility*8 + severity. The lower 3 bits are the syslog severity;
//!   the facility is ignored.
//! - VERSION is any digit run.
//! - TIMESTAMP is RFC 3339. NILVALUE (`-`) means "no timestamp".
//! - HOSTNAME, APP-NAME, PROCID, MSGID are space-separated bare tokens; `-` is
//!   the NILVALUE and projects as `None`.
//! - STRUCTURED-DATA is `[SD-ID key="value" ...][SD-ID ...]` or `-`. Inside a
//!   value, `\\`, `\"` and `\]` are the only escapes. Every `SD-ID.key` is
//!   exposed flat (`origin.ip`), plus the bare `SD-ID` membership.
//! - MSG is everything after STRUCTURED-DATA. May be empty.

use vstd::prelude::*;

use crate::scan;
use crate::scan::ByteClass;
use crate::engine::parse;
use crate::engine::parse::{FieldNames, ParseStats, TsOutcome};
use crate::engine::record::severity;
use crate::text;

verus! {

/// Engine rank of a syslog severity. Notice collapses into `INFO`.
pub open spec fn syslog_rank(sysv: int) -> u8 {
    if sysv == 0 || sysv == 1 || sysv == 2 {
        severity::FATAL
    } else if sysv == 3 {
        severity::ERROR
    } else if sysv == 4 {
        severity::WARN
    } else if sysv == 5 || sysv == 6 {
        severity::INFO
    } else if sysv == 7 {
        severity::DEBUG
    } else {
        severity::UNKNOWN
    }
}

pub(crate) fn map_syslog_severity(sysv: u64) -> (r: u8)
    ensures
        r == syslog_rank(sysv as int),
{
    if sysv <= 2 {
        severity::FATAL
    } else if sysv == 3 {
        severity::ERROR
    } else if sysv == 4 {
        severity::WARN
    } else if sysv <= 6 {
        severity::INFO
    } else if sysv == 7 {
        severity::DEBUG
    } else {
        severity::UNKNOWN
    }
}

/// The fields of a line.
pub struct Header {
    pub severity: u8,
    pub timestamp: Seq<u8>,
    pub hostname: Seq<u8>,
    pub app: Seq<u8>,
    pub procid: Seq<u8>,
    pub msgid: Seq<u8>,
    /// STRUCTURED-DATA with its outer brackets; empty for NILVALUE.
    pub sd: Seq<u8>,
    pub msg: Seq<u8>,
}

/// The space-delimited token at `i`, with the index behind its trailing space.
pub open spec fn token(s: Seq<u8>, i: int) -> Option<(Seq<u8>, int)> {
    let e = scan::run_end(s, i, ByteClass::Except(' ' as u8));
    if e == i {
        None
    } else {
        Some(
            (
                s.subrange(i, e),
                if e < s.len() {
                    e + 1
                } else {
                    e
                },
            ),
        )
    }
}

/// Index behind the `]` that closes a block read from `i`; a backslash takes
/// the byte behind it along.
pub open spec fn block_end(s: Seq<u8>, i: int) -> Option<int>
    decreases s.len() - i,
{
    if !(0 <= i < s.len()) {
        None
    } else if s[i] == ']' as u8 {
        Some(i + 1)
    } else if s[i] == '\\' as u8 && i + 1 < s.len() {
        block_end(s, i + 2)
    } else {
        block_end(s, i + 1)
    }
}

proof fn lemma_block_end(s: Seq<u8>, i: int)
    requires
        0 <= i <= s.len(),
    ensures
        block_end(s, i) matches Some(e) ==> i < e <= s.len(),
    decreases s.len() - i,
{
    if i < s.len() && s[i] != ']' as u8 {
        if s[i] == '\\' as u8 && i + 1 < s.len() {
            lemma_block_end(s, i + 2);
        } else {
            lemma_block_end(s, i + 1);
        }
    }
}

/// Index behind the blocks that stand back to back from `i` on.
pub open spec fn blocks_end(s: Seq<u8>, i: int) -> Option<int>
    decreases s.len() - i,
{
    if 0 <= i < s.len() && s[i] == '[' as u8 {
        match block_end(s, i + 1) {
            None => None,
            Some(e) => if i < e <= s.len() {
                blocks_end(s, e)
            } else {
                None
            },
        }
    } else {
        Some(i)
    }
}

/// The STRUCTURED-DATA region at `start`, with the index behind it.
pub open spec fn structured_data(s: Seq<u8>, start: int) -> Option<(Seq<u8>, int)> {
    if start >= s.len() {
        Some((Seq::empty(), start))
    } else if s[start] == '-' as u8 {
        if start + 1 >= s.len() || s[start + 1] == ' ' as u8 {
            Some((Seq::empty(), start + 1))
        } else {
            None
        }
    } else if s[start] == '[' as u8 {
        match blocks_end(s, start) {
            None => None,
            Some(e) => Some((s.subrange(start, e), e)),
        }
    } else {
        None
    }
}

/// The priority value and the index behind `<PRI>VERSION `.
pub open spec fn priority(s: Seq<u8>) -> Option<(int, int)> {
    let p = scan::run_end(s, 1, ByteClass::Digit);
    let v = scan::run_end(s, p + 1, ByteClass::Digit);
    if s.len() > 0 && s[0] == '<' as u8 && p > 1 && p < s.len() && s[p] == '>' as u8
        && scan::decimal(s.subrange(1, p)) <= u32::MAX && v > p + 1 && v < s.len() && s[v]
        == ' ' as u8 {
        Some((scan::decimal(s.subrange(1, p)) as int, v + 1))
    } else {
        None
    }
}

/// The header and message of a line, or nothing when it is malformed.
pub open spec fn header(s: Seq<u8>) -> Option<Header> {
    match priority(s) {
        None => None,
        Some((pri, i0)) => match token(s, i0) {
            None => None,
            Some((timestamp, i1)) => match token(s, i1) {
                None => None,
                Some((hostname, i2)) => match token(s, i2) {
                    None => None,
                    Some((app, i3)) => match token(s, i3) {
                        None => None,
                        Some((procid, i4)) => match token(s, i4) {
                            None => None,
                            Some((msgid, i5)) => match structured_data(s, i5) {
                                None => None,
                                Some((sd, i6)) => Some(
                                    Header {
                                        severity: syslog_rank(pri % 8),
                                        timestamp,
                                        hostname,
                                        app,
                                        procid,
                                        msgid,
                                        sd,
                                        msg: s.subrange(
                                            if i6 < s.len() && s[i6] == ' ' as u8 {
                                                i6 + 1
                                            } else {
                                                i6
                                            },
                                            s.len() as int,
                                        ),
                                    },
                                ),
                            },
                        },
                    },
                },
            },
        },
    }
}

/// Header layout broken out for field projection. Borrows from the line.
struct HeaderRef<'a> {
    severity: u8,
    timestamp: &'a [u8],
    hostname: &'a [u8],
    app: &'a [u8],
    procid: &'a [u8],
    msgid: &'a [u8],
    sd: &'a [u8],
    msg: &'a [u8],
}

impl<'a> HeaderRef<'a> {
    spec fn model(self) -> Header {
        Header {
            severity: self.severity,
            timestamp: self.timestamp@,
            hostname: self.hostname@,
            app: self.app@,
            procid: self.procid@,
            msgid: self.msgid@,
            sd: self.sd@,
            msg: self.msg@,
        }
    }
}

fn next_sp_token<'a>(line: &'a [u8], i: usize) -> (r: Option<(&'a [u8], usize)>)
    requires
        i <= line@.len(),
    ensures
        match r {
            Some((t, e)) => token(line@, i as int) == Some((t@, e as int)) && i < e <= line@.len(),
            None => token(line@, i as int) is None,
        },
{
    let e: usize = scan::skip(line, i, ByteClass::Except(' ' as u8));
    if e == i {
        return None;
    }
    let t: &'a [u8] = &line[i..e];
    if e < line.len() {
        Some((t, e + 1))
    } else {
        Some((t, e))
    }
}

fn skip_block(s: &[u8], from: usize) -> (r: Option<usize>)
    requires
        from <= s@.len(),
    ensures
        match r {
            Some(e) => block_end(s@, from as int) == Some(e as int) && from < e <= s@.len(),
            None => block_end(s@, from as int) is None,
        },
{
    let mut i: usize = from;
    while i < s.len() && s[i] != ']' as u8
        invariant
            from <= i <= s@.len(),
            block_end(s@, from as int) == block_end(s@, i as int),
        decreases s@.len() - i,
    {
        if s[i] == '\\' as u8 && i + 1 < s.len() {
            i = i + 2;
        } else {
            i = i + 1;
        }
    }
    if i < s.len() {
        Some(i + 1)
    } else {
        None
    }
}

/// Read the STRUCTURED-DATA region: NILVALUE, or one or more `[...]` blocks
/// back to back.
fn read_structured_data<'a>(line: &'a [u8], start: usize) -> (r: Option<(&'a [u8], usize)>)
    requires
        start <= line@.len(),
    ensures
        match r {
            Some((sd, e)) => structured_data(line@, start as int) == Some((sd@, e as int)) && start
                <= e <= line@.len(),
            None => structured_data(line@, start as int) is None,
        },
{
    let none: &'a [u8] = &line[start..start];
    assert(none@ =~= Seq::empty());
    if start >= line.len() {
        return Some((none, start));
    }
    if line[start] == '-' as u8 {
        if start + 1 >= line.len() || line[start + 1] == ' ' as u8 {
            return Some((none, start + 1));
        }
        return None;
    }
    if line[start] != '[' as u8 {
        return None;
    }
    let mut i: usize = start;
    while i < line.len() && line[i] == '[' as u8
        invariant
            start <= i <= line@.len(),
            blocks_end(line@, start as int) == blocks_end(line@, i as int),
        decreases line@.len() - i,
    {
        match skip_block(line, i + 1) {
            Some(e) => {
                i = e;
            },
            None => {
                return None;
            },
        }
    }
    Some((&line[start..i], i))
}

/// The priority value and the index behind `<PRI>VERSION `.
fn read_priority(line: &[u8]) -> (r: Option<(u64, usize)>)
    ensures
        match r {
            Some((pri, i)) => priority(line@) == Some((pri as int, i as int)) && i <= line@.len(),
            None => priority(line@) is None,
        },
{
    if line.len() == 0 || line[0] != '<' as u8 {
        return None;
    }
    let p: usize = scan::skip(line, 1, ByteClass::Digit);
    if p == 1 || p >= line.len() || line[p] != '>' as u8 {
        return None;
    }
    proof {
        scan::lemma_run_end(line@, 1, ByteClass::Digit);
        let ds = line@.subrange(1, p as int);
        assert forall|k: int| 0 <= k < ds.len() implies ByteClass::Digit.has(#[trigger] ds[k]) by {
            assert(ByteClass::Digit.has(line@[1 + k]));
        }
    }
    let pri: u64 = match scan::parse_decimal(&line[1..p], u32::MAX as u64) {
        Some(v) => v,
        None => {
            return None;
        },
    };
    let v: usize = scan::skip(line, p + 1, ByteClass::Digit);
    if v == p + 1 || v >= line.len() || line[v] != ' ' as u8 {
        return None;
    }
    Some((pri, v + 1))
}

/// Parse the header into slices. `None` on malformed input.
fn parse_header<'a>(line: &'a [u8]) -> (r: Option<HeaderRef<'a>>)
    ensures
        match r {
            Some(h) => header(line@) == Some(h.model()),
            None => header(line@) is None,
        },
{
    let (pri, i) = match read_priority(line) {
        Some(x) => x,
        None => {
            return None;
        },
    };
    let (timestamp, i) = match next_sp_token(line, i) {
        Some(x) => x,
        None => {
            return None;
        },
    };
    let (hostname, i) = match next_sp_token(line, i) {
        Some(x) => x,
        None => {
            return None;
        },
    };
    let (app, i) = match next_sp_token(line, i) {
        Some(x) => x,
        None => {
            return None;
        },
    };
    let (procid, i) = match next_sp_token(line, i) {
        Some(x) => x,
        None => {
            return None;
        },
    };
    let (msgid, i) = match next_sp_token(line, i) {
        Some(x) => x,
        None => {
            return None;
        },
    };
    let (sd, i) = match read_structured_data(line, i) {
        Some(x) => x,
        None => {
            return None;
        },
    };
    let at: usize = if i < line.len() && line[i] == ' ' as u8 {
        i + 1
    } else {
        i
    };
    Some(
        HeaderRef {
            severity: map_syslog_severity(pri % 8),
            timestamp,
            hostname,
            app,
            procid,
            msgid,
            sd,
            msg: &line[at..line.len()],
        },
    )
}

/// The NILVALUE `-`.
pub open spec fn is_nil(b: Seq<u8>) -> bool {
    b.len() == 1 && b[0] == '-' as u8
}

fn test_nil(b: &[u8]) -> (r: bool)
    ensures
        r == is_nil(b@),
{
    b.len() == 1 && b[0] == '-' as u8
}

/// The outcome and severity of a syslog line.
pub open spec fn reading(line: Seq<u8>) -> (TsOutcome, u8) {
    match header(line) {
        None => (TsOutcome::Unparsed, severity::UNKNOWN),
        Some(h) => (
            if is_nil(h.timestamp) {
                TsOutcome::Missing
            } else {
                parse::parsed_or_malformed(parse::rfc3339(h.timestamp))
            },
            h.severity,
        ),
    }
}

/// Timestamp and severity of a line. Field-name overrides have no effect:
/// RFC 5424 has fixed field positions, not names.
pub fn ts_and_level(line: &[u8], stats: &mut ParseStats, _fields: Option<&FieldNames>) -> (r: (
    i64,
    u8,
))
    requires
        old(stats).has_room(),
    ensures
        r.0 == reading(line@).0.micros(),
        r.1 == reading(line@).1,
        *final(stats) == old(stats).counting(reading(line@).0),
{
    match parse_header(line) {
        None => (stats.count(TsOutcome::Unparsed), severity::UNKNOWN),
        Some(h) => {
            let outcome: TsOutcome = if test_nil(h.timestamp) {
                TsOutcome::Missing
            } else {
                match parse::rfc3339_micros(h.timestamp) {
                    Some(t) => TsOutcome::Timed(t),
                    None => TsOutcome::Malformed,
                }
            };
            (stats.count(outcome), h.severity)
        },
    }
}

/// A byte that a backslash escapes inside a parameter value.
pub open spec fn is_sd_escapable(b: u8) -> bool {
    b == '"' as u8 || b == '\\' as u8 || b == ']' as u8
}

/// A parameter value read from just behind its opening quote: the value with
/// its escapes resolved, and the index behind it.
pub open spec fn sd_value(s: Seq<u8>, i: int) -> (Seq<u8>, int)
    decreases s.len() - i,
{
    if !(0 <= i < s.len()) {
        (Seq::empty(), s.len() as int)
    } else if s[i] == '"' as u8 {
        (Seq::empty(), i + 1)
    } else if s[i] == '\\' as u8 && i + 1 < s.len() && is_sd_escapable(s[i + 1]) {
        let (v, e) = sd_value(s, i + 2);
        (seq![s[i + 1]] + v, e)
    } else {
        let (v, e) = sd_value(s, i + 1);
        (seq![s[i]] + v, e)
    }
}

proof fn lemma_sd_value(s: Seq<u8>, i: int)
    requires
        0 <= i <= s.len(),
    ensures
        i <= sd_value(s, i).1 <= s.len(),
    decreases s.len() - i,
{
    if i < s.len() && s[i] != '"' as u8 {
        if s[i] == '\\' as u8 && i + 1 < s.len() && is_sd_escapable(s[i + 1]) {
            lemma_sd_value(s, i + 2);
        } else {
            lemma_sd_value(s, i + 1);
        }
    }
}

/// The value of the first parameter called `key` in the block whose parameters
/// start at `i`.
pub open spec fn param(s: Seq<u8>, i: int, key: Seq<u8>) -> Option<Seq<u8>>
    decreases s.len() - i,
{
    let j = scan::run_end(s, i, ByteClass::Only(' ' as u8));
    if !(0 <= i <= j < s.len()) || s[j] == ']' as u8 {
        None
    } else {
        let e = scan::run_end(s, j, ByteClass::ExceptAny('=' as u8, ']' as u8, ' ' as u8));
        if !(j <= e) || e + 1 >= s.len() || s[e] != '=' as u8 || s[e + 1] != '"' as u8 {
            None
        } else {
            let (value, end) = sd_value(s, e + 2);
            if s.subrange(j, e) == key {
                Some(value)
            } else if i < end <= s.len() {
                param(s, end, key)
            } else {
                None
            }
        }
    }
}

/// The parameter `key` (or, without a key, the presence) of the first block
/// called `id` among the blocks from `i` on.
pub open spec fn sd_lookup(s: Seq<u8>, i: int, id: Seq<u8>, key: Option<Seq<u8>>) -> Option<Seq<u8>>
    decreases s.len() - i,
{
    if !(0 <= i < s.len()) || s[i] != '[' as u8 {
        None
    } else {
        let e = scan::run_end(s, i + 1, ByteClass::ExceptEither(' ' as u8, ']' as u8));
        if s.subrange(i + 1, e) == id {
            match key {
                None => Some(Seq::empty()),
                Some(k) => param(s, e, k),
            }
        } else {
            match block_end(s, e) {
                Some(x) => if i < x <= s.len() {
                    sd_lookup(s, x, id, key)
                } else {
                    None
                },
                None => None,
            }
        }
    }
}

/// What a `<SD-ID>.<key>` or bare `<SD-ID>` field name finds in a region.
pub open spec fn sd_field(sd: Seq<u8>, name: Seq<u8>) -> Option<Seq<u8>> {
    let dot = scan::run_end(name, 0, ByteClass::Except('.' as u8));
    sd_lookup(
        sd,
        0,
        name.subrange(0, dot),
        if dot < name.len() {
            Some(name.subrange(dot + 1, name.len() as int))
        } else {
            None
        },
    )
}

fn read_sd_value(s: &[u8], from: usize) -> (r: (Vec<u8>, usize))
    requires
        from <= s@.len(),
    ensures
        sd_value(s@, from as int) == (r.0@, r.1 as int),
        from <= r.1 <= s@.len(),
{
    let ghost whole = sd_value(s@, from as int);
    let mut value: Vec<u8> = Vec::new();
    let mut i: usize = from;
    proof {
        lemma_sd_value(s@, from as int);
        assert(value@ + whole.0 =~= whole.0);
    }
    while i < s.len() && s[i] != '"' as u8
        invariant
            from <= i <= s@.len(),
            whole.0 == value@ + sd_value(s@, i as int).0,
            whole.1 == sd_value(s@, i as int).1,
        decreases s@.len() - i,
    {
        let ghost before = value@;
        if s[i] == '\\' as u8 && i + 1 < s.len() && (s[i + 1] == '"' as u8 || s[i + 1] == '\\' as u8
            || s[i + 1] == ']' as u8) {
            value.push(s[i + 1]);
            proof {
                let rest = sd_value(s@, i + 2).0;
                assert(before + (seq![s@[i + 1]] + rest) =~= value@ + rest);
            }
            i = i + 2;
        } else {
            value.push(s[i]);
            proof {
                let rest = sd_value(s@, i + 1).0;
                assert(before + (seq![s@[i as int]] + rest) =~= value@ + rest);
            }
            i = i + 1;
        }
    }
    assert(whole.0 =~= value@);
    if i < s.len() {
        (value, i + 1)
    } else {
        (value, i)
    }
}

fn find_param(s: &[u8], from: usize, key: &[u8]) -> (r: Option<Vec<u8>>)
    requires
        from <= s@.len(),
    ensures
        match r {
            Some(v) => param(s@, from as int, key@) == Some(v@),
            None => param(s@, from as int, key@) is None,
        },
{
    let mut i: usize = from;
    loop
        invariant
            from <= i <= s@.len(),
            param(s@, from as int, key@) == param(s@, i as int, key@),
        decreases s@.len() - i,
    {
        let j: usize = scan::skip(s, i, ByteClass::Only(' ' as u8));
        if j >= s.len() || s[j] == ']' as u8 {
            return None;
        }
        let e: usize = scan::skip(
            s,
            j,
            ByteClass::ExceptAny('=' as u8, ']' as u8, ' ' as u8),
        );
        if e >= s.len() || s[e] != '=' as u8 || e + 1 >= s.len() || s[e + 1] != '"' as u8 {
            return None;
        }
        let (value, end) = read_sd_value(s, e + 2);
        if scan::bytes_eq(&s[j..e], key) {
            return Some(value);
        }
        i = end;
    }
}

/// Walk the blocks looking for either `<id>.<param>` or a bare `<id>`
/// membership probe.
fn project_structured_data(sd: &[u8], name: &[u8]) -> (r: Option<Vec<u8>>)
    ensures
        match r {
            Some(v) => sd_field(sd@, name@) == Some(v@),
            None => sd_field(sd@, name@) is None,
        },
{
    let dot: usize = scan::skip(name, 0, ByteClass::Except('.' as u8));
    let id: &[u8] = &name[0..dot];
    let key: Option<&[u8]> = if dot < name.len() {
        Some(&name[dot + 1..name.len()])
    } else {
        None
    };
    let ghost wanted: Option<Seq<u8>> = match key {
        Some(k) => Some(k@),
        None => None,
    };
    let mut i: usize = 0;
    while i < sd.len()
        invariant
            i <= sd@.len(),
            wanted == (match key {
                Some(k) => Some(k@),
                None => None,
            }),
            sd_field(sd@, name@) == sd_lookup(sd@, i as int, id@, wanted),
        decreases sd@.len() - i,
    {
        if sd[i] != '[' as u8 {
            return None;
        }
        let e: usize = scan::skip(sd, i + 1, ByteClass::ExceptEither(' ' as u8, ']' as u8));
        if scan::bytes_eq(&sd[i + 1..e], id) {
            return match key {
                None => {
                    let empty: Vec<u8> = Vec::new();
                    assert(empty@ =~= Seq::empty());
                    Some(empty)
                },
                Some(k) => find_param(sd, e, k),
            };
        }
        match skip_block(sd, e) {
            Some(x) => {
                i = x;
            },
            None => {
                return None;
            },
        }
    }
    None
}

/// A token's text, or nothing for the NILVALUE.
pub open spec fn nil_to_none(b: Seq<u8>) -> Option<Seq<char>> {
    if is_nil(b) {
        None
    } else {
        Some(text::lossy(b))
    }
}

/// The text of a field.
pub open spec fn field(line: Seq<u8>, key: Seq<char>) -> Option<Seq<char>> {
    match header(line) {
        None => None,
        Some(h) => if key == "host"@ {
            nil_to_none(h.hostname)
        } else if key == "app"@ {
            nil_to_none(h.app)
        } else if key == "procid"@ {
            nil_to_none(h.procid)
        } else if key == "msgid"@ {
            nil_to_none(h.msgid)
        } else if key == "msg"@ {
            Some(text::lossy(h.msg))
        } else if key == "ts"@ {
            nil_to_none(h.timestamp)
        } else if key == "level"@ {
            Some(severity::name_of(h.severity))
        } else {
            match sd_field(h.sd, text::enc(key)) {
                Some(v) => Some(text::lossy(v)),
                None => None,
            }
        },
    }
}

fn nil_to_text(b: &[u8]) -> (r: Option<String>)
    ensures
        text::opt_view(r) == nil_to_none(b@),
{
    if test_nil(b) {
        None
    } else {
        Some(text::from_utf8_lossy(b))
    }
}

/// Field projection. Recognised keys:
///
/// - `host`, `app`, `procid`, `msgid`: header fields. NILVALUE `-` gives
///   `None`.
/// - `msg`: the MSG portion (may be empty).
/// - `ts`: the timestamp text.
/// - `level`: the lower-case name of the severity.
/// - `<SD-ID>.<key>`: a structured-data parameter. The first block with that
///   SD-ID wins.
/// - `<SD-ID>`: empty string if the block is present, else `None`.
pub fn project_field(line: &[u8], key: &str) -> (r: Option<String>)
    ensures
        text::opt_view(r) == field(line@, key@),
{
    let h: HeaderRef = match parse_header(line) {
        Some(h) => h,
        None => {
            return None;
        },
    };
    if text::str_eq(key, "host") {
        nil_to_text(h.hostname)
    } else if text::str_eq(key, "app") {
        nil_to_text(h.app)
    } else if text::str_eq(key, "procid") {
        nil_to_text(h.procid)
    } else if text::str_eq(key, "msgid") {
        nil_to_text(h.msgid)
    } else if text::str_eq(key, "msg") {
        Some(text::from_utf8_lossy(h.msg))
    } else if text::str_eq(key, "ts") {
        nil_to_text(h.timestamp)
    } else if text::str_eq(key, "level") {
        Some(severity::name(h.severity).to_owned())
    } else {
        match project_structured_data(h.sd, key.as_bytes()) {
            Some(v) => Some(text::from_utf8_lossy(&v)),
            None => None,
        }
    }
}

/// A line opens like syslog 5424: `<`, digits, `>`, version `1`, a space.
pub open spec fn has_frame(s: Seq<u8>) -> bool {
    let p = scan::run_end(s, 1, ByteClass::Digit);
    s.len() > 0 && s[0] == '<' as u8 && 1 < p && p + 2 < s.len() && s[p] == '>' as u8 && s[p + 1]
        == '1' as u8 && s[p + 2] == ' ' as u8
}

/// Heuristic for format detection.
pub fn looks_like_syslog(line: &[u8]) -> (r: bool)
    ensures
        r == has_frame(line@),
{
    if line.len() == 0 || line[0] != '<' as u8 {
        return false;
    }
    let p: usize = scan::skip(line, 1, ByteClass::Digit);
    p > 1 && line.len() - p > 2 && line[p] == '>' as u8 && line[p + 1] == '1' as u8 && line[p + 2]
        == ' ' as u8
}

/// From index `from` on, `t` is `s` moved by `c` places.
spec fn is_moved(s: Seq<u8>, t: Seq<u8>, from: int, c: int) -> bool {
    &&& t.len() == s.len() + c
    &&& 0 <= from
    &&& 0 <= from + c
    &&& forall|k: int| from <= k < s.len() ==> #[trigger] s[k] == t[k + c]
}

proof fn lemma_moved_run(s: Seq<u8>, t: Seq<u8>, from: int, c: int, i: int, class: ByteClass)
    requires
        is_moved(s, t, from, c),
        from <= i,
    ensures
        scan::run_end(t, i + c, class) == scan::run_end(s, i, class) + c,
        scan::run_end(s, i, class) >= i,
    decreases s.len() - i,
{
    if i < s.len() && class.has(s[i]) {
        lemma_moved_run(s, t, from, c, i + 1, class);
    }
}

proof fn lemma_moved_token(s: Seq<u8>, t: Seq<u8>, from: int, c: int, i: int)
    requires
        is_moved(s, t, from, c),
        from <= i <= s.len(),
    ensures
        match token(s, i) {
            None => token(t, i + c) is None,
            Some((w, j)) => token(t, i + c) == Some((w, j + c)) && i <= j <= s.len(),
        },
{
    let class = ByteClass::Except(' ' as u8);
    lemma_moved_run(s, t, from, c, i, class);
    scan::lemma_run_end(s, i, class);
    let e = scan::run_end(s, i, class);
    if e != i {
        assert(t.subrange(i + c, e + c) =~= s.subrange(i, e)) by {
            assert forall|k: int| 0 <= k < e - i implies t.subrange(i + c, e + c)[k] == s.subrange(
                i,
                e,
            )[k] by {
                assert(s[i + k] == t[i + k + c]);
            }
        }
    }
}

proof fn lemma_moved_block(s: Seq<u8>, t: Seq<u8>, from: int, c: int, i: int)
    requires
        is_moved(s, t, from, c),
        from <= i,
    ensures
        match block_end(s, i) {
            None => block_end(t, i + c) is None,
            Some(e) => block_end(t, i + c) == Some(e + c) && i < e <= s.len(),
        },
    decreases s.len() - i,
{
    if i < s.len() {
        assert(s[i] == t[i + c]);
        if s[i] != ']' as u8 {
            if s[i] == '\\' as u8 && i + 1 < s.len() {
                lemma_moved_block(s, t, from, c, i + 2);
            } else {
                lemma_moved_block(s, t, from, c, i + 1);
            }
        }
    }
}

proof fn lemma_moved_blocks(s: Seq<u8>, t: Seq<u8>, from: int, c: int, i: int)
    requires
        is_moved(s, t, from, c),
        from <= i <= s.len(),
    ensures
        match blocks_end(s, i) {
            None => blocks_end(t, i + c) is None,
            Some(e) => blocks_end(t, i + c) == Some(e + c) && i <= e <= s.len(),
        },
    decreases s.len() - i,
{
    if i < s.len() {
        assert(s[i] == t[i + c]);
        if s[i] == '[' as u8 {
            lemma_moved_block(s, t, from, c, i + 1);
            if let Some(e) = block_end(s, i + 1) {
                lemma_moved_blocks(s, t, from, c, e);
            }
        }
    }
}

proof fn lemma_moved_data(s: Seq<u8>, t: Seq<u8>, from: int, c: int, i: int)
    requires
        is_moved(s, t, from, c),
        from <= i <= s.len(),
    ensures
        structured_data(s, i) is Some <==> structured_data(t, i + c) is Some,
{
    lemma_moved_blocks(s, t, from, c, i);
    if i < s.len() {
        assert(s[i] == t[i + c]);
    }
    if i + 1 < s.len() {
        assert(s[i + 1] == t[i + 1 + c]);
    }
}

/// A line with a priority and what stands behind it.
pub open spec fn with_priority(digits: Seq<u8>, rest: Seq<u8>) -> Seq<u8> {
    seq!['<' as u8] + digits + seq!['>' as u8] + rest
}

proof fn lemma_priority_digits(digits: Seq<u8>, rest: Seq<u8>)
    requires
        digits.len() > 0,
        scan::all_digits(digits),
    ensures
        ({
            let s = with_priority(digits, rest);
            let p = digits.len() as int + 1;
            &&& scan::run_end(s, 1, ByteClass::Digit) == p
            &&& s[p] == '>' as u8
            &&& s.subrange(1, p) == digits
        }),
{
    let s = with_priority(digits, rest);
    let p = digits.len() as int + 1;
    assert forall|k: int| 1 <= k < p implies ByteClass::Digit.has(#[trigger] s[k]) by {
        assert(s[k] == digits[k - 1]);
    }
    scan::lemma_run_end_at(s, 1, p, ByteClass::Digit);
    assert(s.subrange(1, p) =~= digits);
}

/// What a priority says of the line behind it: its severity is the priority's
/// remainder by eight. The facility, which is the rest of the priority, changes
/// neither time nor severity; a timestamp of `-` is merely missing, and a line
/// that does not parse has neither.
pub proof fn law_facility_changes_nothing(d: Seq<u8>, e: Seq<u8>, rest: Seq<u8>)
    requires
        d.len() > 0,
        e.len() > 0,
        scan::all_digits(d),
        scan::all_digits(e),
        scan::decimal(d) <= u32::MAX,
        scan::decimal(e) <= u32::MAX,
        scan::decimal(d) % 8 == scan::decimal(e) % 8,
    ensures
        reading(with_priority(d, rest)) == reading(with_priority(e, rest)),
        header(with_priority(d, rest)) is Some ==> reading(with_priority(d, rest)).1
            == syslog_rank(scan::decimal(d) as int % 8),
        header(with_priority(d, rest)) matches Some(h) ==> is_nil(h.timestamp) ==> reading(
            with_priority(d, rest),
        ).0 == TsOutcome::Missing,
        header(with_priority(d, rest)) is None ==> reading(with_priority(d, rest)) == (
            TsOutcome::Unparsed,
            severity::UNKNOWN,
        ),
{
    let s = with_priority(d, rest);
    let t = with_priority(e, rest);
    let c = e.len() - d.len();
    let p = d.len() as int + 1;
    lemma_priority_digits(d, rest);
    lemma_priority_digits(e, rest);
    assert forall|k: int| p <= k < s.len() implies #[trigger] s[k] == t[k + c] by {
        if k > p {
            assert(s[k] == rest[k - p - 1]);
            assert(t[k + c] == rest[k - p - 1]);
        }
    }
    assert(is_moved(s, t, p, c));
    lemma_moved_run(s, t, p, c, p + 1, ByteClass::Digit);
    let v = scan::run_end(s, p + 1, ByteClass::Digit);
    if p + 1 <= v < s.len() {
        assert(s[v] == t[v + c]);
    }
    if let Some((pri, i0)) = priority(s) {
        lemma_moved_token(s, t, p, c, i0);
        if let Some((_, i1)) = token(s, i0) {
            lemma_moved_token(s, t, p, c, i1);
            if let Some((_, i2)) = token(s, i1) {
                lemma_moved_token(s, t, p, c, i2);
                if let Some((_, i3)) = token(s, i2) {
                    lemma_moved_token(s, t, p, c, i3);
                    if let Some((_, i4)) = token(s, i3) {
                        lemma_moved_token(s, t, p, c, i4);
                        if let Some((_, i5)) = token(s, i4) {
                            lemma_moved_data(s, t, p, c, i5);
                        }
                    }
                }
            }
        }
    }
}

/// The severity falls with the number: emergency, alert and critical are
/// `fatal`, and the others one rank each, but for notice, which is `info`.
pub proof fn law_severities_fall_with_their_number(n: int)
    ensures
        0 <= n <= 2 ==> syslog_rank(n) == 6,
        n == 3 ==> syslog_rank(n) == 5,
        n == 4 ==> syslog_rank(n) == 4,
        5 <= n <= 6 ==> syslog_rank(n) == 3,
        n == 7 ==> syslog_rank(n) == 2,
        n < 0 || n > 7 ==> syslog_rank(n) == 0,
{
}

/// A block of structured data: its name, and its parameters with their values.
pub struct Block {
    pub id: Seq<u8>,
    pub params: Seq<(Seq<u8>, Seq<u8>)>,
}

/// A value as it is written between quotes: a backslash before each quote,
/// backslash and closing bracket.
pub open spec fn sd_escaped(v: Seq<u8>) -> Seq<u8>
    decreases v.len(),
{
    if v.len() == 0 {
        Seq::empty()
    } else if v[0] == '"' as u8 || v[0] == '\\' as u8 || v[0] == ']' as u8 {
        seq!['\\' as u8, v[0]] + sd_escaped(v.skip(1))
    } else {
        seq![v[0]] + sd_escaped(v.skip(1))
    }
}

/// ` name="value"`.
pub open spec fn written_param(name: Seq<u8>, value: Seq<u8>) -> Seq<u8> {
    seq![' ' as u8] + (name + (seq!['=' as u8, '"' as u8] + (sd_escaped(value) + seq!['"' as u8])))
}

pub open spec fn written_params(params: Seq<(Seq<u8>, Seq<u8>)>) -> Seq<u8>
    decreases params.len(),
{
    if params.len() == 0 {
        Seq::empty()
    } else {
        written_param(params[0].0, params[0].1) + written_params(params.skip(1))
    }
}

/// `[id name="value" ...]`.
pub open spec fn written_block(b: Block) -> Seq<u8> {
    seq!['[' as u8] + (b.id + (written_params(b.params) + seq![']' as u8]))
}

/// Blocks back to back.
pub open spec fn written_blocks(blocks: Seq<Block>) -> Seq<u8>
    decreases blocks.len(),
{
    if blocks.len() == 0 {
        Seq::empty()
    } else {
        written_block(blocks[0]) + written_blocks(blocks.skip(1))
    }
}

/// A name that a block or a parameter can have.
pub open spec fn is_sd_name(n: Seq<u8>) -> bool {
    n.len() > 0 && forall|k: int|
        0 <= k < n.len() ==> #[trigger] n[k] != '=' as u8 && n[k] != ' ' as u8 && n[k] != ']' as u8
            && n[k] != '\\' as u8
}

pub open spec fn is_block(b: Block) -> bool {
    is_sd_name(b.id) && forall|k: int| 0 <= k < b.params.len() ==> is_sd_name(#[trigger] b.params[k].0)
}

/// Bytes that are no bracket and no backslash do not end a block.
proof fn lemma_plain_skipped(s: Seq<u8>, i: int, t: Seq<u8>)
    requires
        scan::stands(s, i, t),
        forall|k: int| 0 <= k < t.len() ==> #[trigger] t[k] != ']' as u8 && t[k] != '\\' as u8,
    ensures
        block_end(s, i) == block_end(s, i + t.len()),
    decreases t.len(),
{
    if t.len() > 0 {
        let one = seq![t[0]];
        let rest = t.skip(1);
        assert(t =~= one + rest);
        scan::lemma_halves(s, i, one, rest);
        scan::lemma_stands_byte(s, i, one, 0);
        assert forall|k: int| 0 <= k < rest.len() implies #[trigger] rest[k] != ']' as u8 && rest[k]
            != '\\' as u8 by {
            assert(rest[k] == t[k + 1]);
        }
        lemma_plain_skipped(s, i + 1, rest);
    }
}

/// An escaped value does not end a block, and is read back up to its quote.
proof fn lemma_value_is_read(s: Seq<u8>, i: int, v: Seq<u8>)
    requires
        scan::stands(s, i, sd_escaped(v) + seq!['"' as u8]),
    ensures
        sd_value(s, i) == (v, i + sd_escaped(v).len() + 1),
        block_end(s, i) == block_end(s, i + sd_escaped(v).len() + 1),
    decreases v.len(),
{
    let close = seq!['"' as u8];
    let written = sd_escaped(v) + close;
    if v.len() == 0 {
        assert(written =~= close);
        scan::lemma_stands_byte(s, i, close, 0);
        assert(sd_value(s, i).0 =~= v);
    } else {
        let rest = v.skip(1);
        let after = sd_escaped(rest) + close;
        if v[0] == '"' as u8 || v[0] == '\\' as u8 || v[0] == ']' as u8 {
            let pair = seq!['\\' as u8, v[0]];
            assert(written =~= pair + after);
            scan::lemma_halves(s, i, pair, after);
            scan::lemma_stands_byte(s, i, pair, 0);
            scan::lemma_stands_byte(s, i, pair, 1);
            lemma_value_is_read(s, i + 2, rest);
            assert(seq![v[0]] + rest =~= v);
        } else {
            let one = seq![v[0]];
            assert(written =~= one + after);
            scan::lemma_halves(s, i, one, after);
            scan::lemma_stands_byte(s, i, one, 0);
            lemma_value_is_read(s, i + 1, rest);
            assert(one + rest =~= v);
        }
    }
}

/// One parameter at `i`: found under its name, or stepped over.
proof fn lemma_param_is_read(s: Seq<u8>, i: int, name: Seq<u8>, value: Seq<u8>, key: Seq<u8>)
    requires
        is_sd_name(name),
        scan::stands(s, i, written_param(name, value)),
    ensures
        name == key ==> param(s, i, key) == Some(value),
        name != key ==> param(s, i, key) == param(s, i + written_param(name, value).len(), key),
        block_end(s, i) == block_end(s, i + written_param(name, value).len()),
{
    let sp = seq![' ' as u8];
    let open = seq!['=' as u8, '"' as u8];
    let body = sd_escaped(value) + seq!['"' as u8];
    scan::lemma_halves(s, i, sp, name + (open + body));
    scan::lemma_stands_byte(s, i, sp, 0);
    scan::lemma_halves(s, i + 1, name, open + body);
    scan::lemma_stands_byte(s, i + 1, name, 0);
    let e: int = i + 1 + name.len();
    scan::lemma_halves(s, e, open, body);
    scan::lemma_stands_byte(s, e, open, 0);
    scan::lemma_stands_byte(s, e, open, 1);
    scan::lemma_run_end_at(s, i, i + 1, ByteClass::Only(' ' as u8));
    scan::lemma_stands_run(s, i + 1, name, ByteClass::ExceptAny('=' as u8, ']' as u8, ' ' as u8));
    scan::lemma_stands_subrange(s, i + 1, name);
    lemma_value_is_read(s, e + 2, value);
    lemma_plain_skipped(s, i, sp);
    lemma_plain_skipped(s, i + 1, name);
    lemma_plain_skipped(s, e, open);
}

/// The parameters at `i`, with the bracket that closes their block.
proof fn lemma_params_are_read(s: Seq<u8>, i: int, params: Seq<(Seq<u8>, Seq<u8>)>, key: Seq<u8>)
    requires
        forall|k: int| 0 <= k < params.len() ==> is_sd_name(#[trigger] params[k].0),
        scan::stands(s, i, written_params(params) + seq![']' as u8]),
    ensures
        block_end(s, i) == Some(i + written_params(params).len() + 1),
        forall|k: int|
            0 <= k < params.len() && params[k].0 == key && (forall|j: int|
                0 <= j < k ==> #[trigger] params[j].0 != key) ==> param(s, i, key) == Some(
                #[trigger] params[k].1,
            ),
        (forall|k: int| 0 <= k < params.len() ==> #[trigger] params[k].0 != key) ==> param(s, i, key)
            is None,
    decreases params.len(),
{
    let close = seq![']' as u8];
    if params.len() == 0 {
        assert(written_params(params) + close =~= close);
        scan::lemma_stands_byte(s, i, close, 0);
        scan::lemma_run_end_at(s, i, i, ByteClass::Only(' ' as u8));
    } else {
        let one = written_param(params[0].0, params[0].1);
        let more = params.skip(1);
        assert(written_params(params) + close =~= one + (written_params(more) + close));
        scan::lemma_halves(s, i, one, written_params(more) + close);
        assert(is_sd_name(params[0].0));
        lemma_param_is_read(s, i, params[0].0, params[0].1, key);
        assert forall|k: int| 0 <= k < more.len() implies is_sd_name(#[trigger] more[k].0) by {
            assert(more[k] == params[k + 1]);
        }
        lemma_params_are_read(s, i + one.len(), more, key);
        assert forall|k: int|
            0 <= k < params.len() && params[k].0 == key && (forall|j: int|
                0 <= j < k ==> #[trigger] params[j].0 != key) implies param(s, i, key) == Some(
            #[trigger] params[k].1,
        ) by {
            if k > 0 {
                assert(params[0].0 != key);
                assert(more[k - 1] == params[k]);
                assert forall|j: int| 0 <= j < k - 1 implies #[trigger] more[j].0 != key by {
                    assert(more[j] == params[j + 1]);
                }
                assert(param(s, i + one.len(), key) == Some(more[k - 1].1));
            }
        }
        if forall|k: int| 0 <= k < params.len() ==> #[trigger] params[k].0 != key {
            assert(params[0].0 != key);
            assert forall|k: int| 0 <= k < more.len() implies #[trigger] more[k].0 != key by {
                assert(more[k] == params[k + 1]);
            }
        }
    }
}

/// A block at `i`: its name, and where it ends.
proof fn lemma_block_is_read(s: Seq<u8>, i: int, b: Block)
    requires
        is_block(b),
        scan::stands(s, i, written_block(b)),
    ensures
        0 <= i,
        i + written_block(b).len() <= s.len(),
        s[i] == '[' as u8,
        scan::run_end(s, i + 1, ByteClass::ExceptEither(' ' as u8, ']' as u8)) == i + 1 + b.id.len(),
        s.subrange(i + 1, i + 1 + b.id.len()) == b.id,
        scan::stands(s, i + 1 + b.id.len(), written_params(b.params) + seq![']' as u8]),
        block_end(s, i + 1) == Some(i + written_block(b).len()),
        block_end(s, i + 1 + b.id.len()) == Some(i + written_block(b).len()),
{
    let open = seq!['[' as u8];
    let close = seq![']' as u8];
    let ps = written_params(b.params);
    scan::lemma_halves(s, i, open, b.id + (ps + close));
    scan::lemma_stands_byte(s, i, open, 0);
    scan::lemma_halves(s, i + 1, b.id, ps + close);
    let e: int = i + 1 + b.id.len();
    scan::lemma_stands_subrange(s, i + 1, b.id);
    scan::lemma_stands_byte(s, e, ps + close, 0);
    if b.params.len() == 0 {
        assert(ps + close =~= close);
    } else {
        let p = b.params[0];
        assert((ps + close)[0] == written_param(p.0, p.1)[0]);
    }
    scan::lemma_stands_run(s, i + 1, b.id, ByteClass::ExceptEither(' ' as u8, ']' as u8));
    lemma_params_are_read(s, e, b.params, Seq::empty());
    lemma_plain_skipped(s, i + 1, b.id);
}

/// The blocks at `i`, with something else than a bracket behind them.
proof fn lemma_blocks_end(s: Seq<u8>, i: int, blocks: Seq<Block>)
    requires
        forall|k: int| 0 <= k < blocks.len() ==> is_block(#[trigger] blocks[k]),
        scan::stands(s, i, written_blocks(blocks)),
        ({
            let e = i + written_blocks(blocks).len();
            e < s.len() ==> s[e] != '[' as u8
        }),
    ensures
        blocks_end(s, i) == Some(i + written_blocks(blocks).len()),
    decreases blocks.len(),
{
    if blocks.len() > 0 {
        let one = written_block(blocks[0]);
        let more = blocks.skip(1);
        scan::lemma_halves(s, i, one, written_blocks(more));
        assert(is_block(blocks[0]));
        lemma_block_is_read(s, i, blocks[0]);
        assert forall|k: int| 0 <= k < more.len() implies is_block(#[trigger] more[k]) by {
            assert(more[k] == blocks[k + 1]);
        }
        lemma_blocks_end(s, i + one.len(), more);
    }
}

/// The first block of a name is the one that is looked into.
proof fn lemma_block_is_found(
    s: Seq<u8>,
    i: int,
    blocks: Seq<Block>,
    at: int,
    key: Option<Seq<u8>>,
    n: int,
)
    requires
        forall|k: int| 0 <= k < blocks.len() ==> is_block(#[trigger] blocks[k]),
        scan::stands(s, i, written_blocks(blocks)),
        0 <= at < blocks.len(),
        forall|k: int| 0 <= k < at ==> #[trigger] blocks[k].id != blocks[at].id,
        key is Some ==> 0 <= n < blocks[at].params.len() && blocks[at].params[n].0 == key->0
            && forall|j: int| 0 <= j < n ==> #[trigger] blocks[at].params[j].0 != key->0,
    ensures
        sd_lookup(s, i, blocks[at].id, key) == Some(
            match key {
                Some(_) => blocks[at].params[n].1,
                None => Seq::empty(),
            },
        ),
    decreases blocks.len(),
{
    let one = written_block(blocks[0]);
    let more = blocks.skip(1);
    scan::lemma_halves(s, i, one, written_blocks(more));
    assert(is_block(blocks[0]));
    lemma_block_is_read(s, i, blocks[0]);
    let e: int = i + 1 + blocks[0].id.len();
    if at == 0 {
        if let Some(k) = key {
            lemma_params_are_read(s, e, blocks[0].params, k);
        }
    } else {
        assert(blocks[0].id != blocks[at].id);
        assert forall|k: int| 0 <= k < more.len() implies is_block(#[trigger] more[k]) by {
            assert(more[k] == blocks[k + 1]);
        }
        assert(more[at - 1] == blocks[at]);
        assert forall|k: int| 0 <= k < at - 1 implies #[trigger] more[k].id != more[at - 1].id by {
            assert(more[k] == blocks[k + 1]);
        }
        lemma_block_is_found(s, i + one.len(), more, at - 1, key, n);
    }
}

/// `id.key` reads the value of the first parameter of that name in the first
/// block of that name, whatever quotes, backslashes and brackets it holds; the
/// bare `id` reads as empty where there is such a block.
pub proof fn law_structured_data_is_read(blocks: Seq<Block>, at: int, n: int)
    requires
        forall|k: int| 0 <= k < blocks.len() ==> is_block(#[trigger] blocks[k]),
        0 <= at < blocks.len(),
        forall|k: int| 0 <= k < at ==> #[trigger] blocks[k].id != blocks[at].id,
        forall|k: int| 0 <= k < blocks[at].id.len() ==> #[trigger] blocks[at].id[k] != '.' as u8,
    ensures
        sd_field(written_blocks(blocks), blocks[at].id) == Some(Seq::<u8>::empty()),
        0 <= n < blocks[at].params.len() && (forall|j: int|
            0 <= j < n ==> #[trigger] blocks[at].params[j].0 != blocks[at].params[n].0) ==> sd_field(
            written_blocks(blocks),
            blocks[at].id + seq!['.' as u8] + blocks[at].params[n].0,
        ) == Some(blocks[at].params[n].1),
{
    let s = written_blocks(blocks);
    let id = blocks[at].id;
    let class = ByteClass::Except('.' as u8);
    scan::lemma_whole(s);
    scan::lemma_run_end_at(id, 0, id.len() as int, class);
    assert(id.subrange(0, id.len() as int) =~= id);
    lemma_block_is_found(s, 0, blocks, at, None, n);
    if 0 <= n < blocks[at].params.len() && (forall|j: int|
        0 <= j < n ==> #[trigger] blocks[at].params[j].0 != blocks[at].params[n].0) {
        let key = blocks[at].params[n].0;
        let name = id + seq!['.' as u8] + key;
        assert forall|k: int| 0 <= k < id.len() implies class.has(#[trigger] name[k]) by {
            assert(name[k] == id[k]);
        }
        assert(name[id.len() as int] == '.' as u8);
        scan::lemma_run_end_at(name, 0, id.len() as int, class);
        assert(name.subrange(0, id.len() as int) =~= id);
        assert(name.subrange(id.len() as int + 1, name.len() as int) =~= key);
        lemma_block_is_found(s, 0, blocks, at, Some(key), n);
    }
}

/// A token that a header can hold: not empty, with no space in it.
pub open spec fn is_token(t: Seq<u8>) -> bool {
    t.len() > 0 && forall|k: int| 0 <= k < t.len() ==> #[trigger] t[k] != ' ' as u8
}

/// A token and the space behind it.
proof fn lemma_token_is_read(s: Seq<u8>, i: int, t: Seq<u8>, rest: Seq<u8>)
    requires
        is_token(t),
        scan::stands(s, i, t + (seq![' ' as u8] + rest)),
    ensures
        token(s, i) == Some((t, i + t.len() + 1)),
        scan::stands(s, i + t.len() + 1, rest),
        0 <= i,
        i + t.len() + 1 + rest.len() <= s.len(),
{
    let sp = seq![' ' as u8];
    scan::lemma_halves(s, i, t, sp + rest);
    scan::lemma_halves(s, i + t.len(), sp, rest);
    scan::lemma_stands_byte(s, i + t.len(), sp, 0);
    scan::lemma_stands_run(s, i, t, ByteClass::Except(' ' as u8));
    scan::lemma_stands_subrange(s, i, t);
}

/// The structured data of a line: its blocks, or `-` where there are none.
pub open spec fn written_data(blocks: Seq<Block>) -> Seq<u8> {
    if blocks.len() == 0 {
        seq!['-' as u8]
    } else {
        written_blocks(blocks)
    }
}

/// A line from its timestamp on.
#[verifier::opaque]
pub open spec fn written_tail(h: Header, blocks: Seq<Block>) -> Seq<u8> {
    let sp = seq![' ' as u8];
    h.timestamp + (sp + (h.hostname + (sp + (h.app + (sp + (h.procid + (sp + (h.msgid + (sp + (
    written_data(blocks) + (sp + h.msg)))))))))))
}

/// `VERSION ` and what follows it.
pub open spec fn written_rest(version: Seq<u8>, h: Header, blocks: Seq<Block>) -> Seq<u8> {
    version + (seq![' ' as u8] + written_tail(h, blocks))
}

/// The parts can be written to a line.
pub open spec fn is_writable(h: Header, blocks: Seq<Block>) -> bool {
    &&& is_token(h.timestamp)
    &&& is_token(h.hostname)
    &&& is_token(h.app)
    &&& is_token(h.procid)
    &&& is_token(h.msgid)
    &&& forall|k: int| 0 <= k < blocks.len() ==> is_block(#[trigger] blocks[k])
    &&& h.sd == (if blocks.len() == 0 {
        Seq::empty()
    } else {
        written_blocks(blocks)
    })
}

proof fn lemma_data_is_read(s: Seq<u8>, i: int, blocks: Seq<Block>, msg: Seq<u8>)
    requires
        forall|k: int| 0 <= k < blocks.len() ==> is_block(#[trigger] blocks[k]),
        scan::stands(s, i, written_data(blocks) + (seq![' ' as u8] + msg)),
        i + written_data(blocks).len() + 1 + msg.len() == s.len(),
    ensures
        structured_data(s, i) == Some(
            (
                if blocks.len() == 0 {
                    Seq::empty()
                } else {
                    written_blocks(blocks)
                },
                i + written_data(blocks).len(),
            ),
        ),
        s[i + written_data(blocks).len()] == ' ' as u8,
        s.subrange(i + written_data(blocks).len() + 1, s.len() as int) == msg,
{
    let sp = seq![' ' as u8];
    let d = written_data(blocks);
    scan::lemma_halves(s, i, d, sp + msg);
    scan::lemma_halves(s, i + d.len(), sp, msg);
    scan::lemma_stands_byte(s, i + d.len(), sp, 0);
    scan::lemma_stands_subrange(s, i + d.len() + 1, msg);
    if blocks.len() == 0 {
        scan::lemma_stands_byte(s, i, d, 0);
    } else {
        lemma_blocks_end(s, i, blocks);
        assert(is_block(blocks[0]));
        scan::lemma_halves(s, i, written_block(blocks[0]), written_blocks(blocks.skip(1)));
        lemma_block_is_read(s, i, blocks[0]);
        scan::lemma_stands_subrange(s, i, d);
    }
}

proof fn lemma_tail_is_read(s: Seq<u8>, i: int, h: Header, blocks: Seq<Block>)
    requires
        is_writable(h, blocks),
        scan::stands(s, i, written_tail(h, blocks)),
        i + written_tail(h, blocks).len() == s.len(),
    ensures
        ({
            let i1 = i + h.timestamp.len() + 1;
            let i2 = i1 + h.hostname.len() + 1;
            let i3 = i2 + h.app.len() + 1;
            let i4 = i3 + h.procid.len() + 1;
            let i5 = i4 + h.msgid.len() + 1;
            let i6 = i5 + written_data(blocks).len();
            &&& token(s, i) == Some((h.timestamp, i1))
            &&& token(s, i1) == Some((h.hostname, i2))
            &&& token(s, i2) == Some((h.app, i3))
            &&& token(s, i3) == Some((h.procid, i4))
            &&& token(s, i4) == Some((h.msgid, i5))
            &&& structured_data(s, i5) == Some((h.sd, i6))
            &&& i6 < s.len()
            &&& s[i6] == ' ' as u8
            &&& s.subrange(i6 + 1, s.len() as int) == h.msg
        }),
{
    reveal(written_tail);
    let sp = seq![' ' as u8];
    let r5 = written_data(blocks) + (sp + h.msg);
    let r4 = h.msgid + (sp + r5);
    let r3 = h.procid + (sp + r4);
    let r2 = h.app + (sp + r3);
    let r1 = h.hostname + (sp + r2);
    lemma_token_is_read(s, i, h.timestamp, r1);
    let i1: int = i + h.timestamp.len() + 1;
    lemma_token_is_read(s, i1, h.hostname, r2);
    let i2: int = i1 + h.hostname.len() + 1;
    lemma_token_is_read(s, i2, h.app, r3);
    let i3: int = i2 + h.app.len() + 1;
    lemma_token_is_read(s, i3, h.procid, r4);
    let i4: int = i3 + h.procid.len() + 1;
    lemma_token_is_read(s, i4, h.msgid, r5);
    let i5: int = i4 + h.msgid.len() + 1;
    lemma_data_is_read(s, i5, blocks, h.msg);
}

/// A line gives back what it was written from: the severity of its priority,
/// every part of its header in its place, its structured data and its message.
pub proof fn law_written_line_is_read(
    digits: Seq<u8>,
    version: Seq<u8>,
    h: Header,
    blocks: Seq<Block>,
)
    requires
        digits.len() > 0,
        scan::all_digits(digits),
        scan::decimal(digits) <= u32::MAX,
        version.len() > 0,
        scan::all_digits(version),
        is_writable(h, blocks),
        h.severity == syslog_rank(scan::decimal(digits) as int % 8),
    ensures
        header(with_priority(digits, written_rest(version, h, blocks))) == Some(h),
{
    let rest = written_rest(version, h, blocks);
    let s = with_priority(digits, rest);
    let sp = seq![' ' as u8];
    let p: int = digits.len() as int + 1;
    lemma_priority_digits(digits, rest);
    scan::lemma_whole(s);
    let front = seq!['<' as u8] + digits + seq!['>' as u8];
    scan::lemma_halves(s, 0, front, rest);
    scan::lemma_halves(s, p + 1, version, sp + written_tail(h, blocks));
    let v: int = p + 1 + version.len();
    scan::lemma_halves(s, v, sp, written_tail(h, blocks));
    scan::lemma_stands_byte(s, v, sp, 0);
    scan::lemma_stands_run(s, p + 1, version, ByteClass::Digit);
    lemma_tail_is_read(s, v + 1, h, blocks);
}

/// Each part of a line is the text of the field of its name; `-` is no text.
/// Any other name is looked up in the structured data.
pub proof fn law_parts_have_their_names(s: Seq<u8>, h: Header, key: Seq<char>)
    requires
        header(s) == Some(h),
    ensures
        h.hostname == seq!['-' as u8] ==> field(s, "host"@) is None,
        h.hostname != seq!['-' as u8] ==> field(s, "host"@) == Some(text::lossy(h.hostname)),
        h.app == seq!['-' as u8] ==> field(s, "app"@) is None,
        h.app != seq!['-' as u8] ==> field(s, "app"@) == Some(text::lossy(h.app)),
        h.procid == seq!['-' as u8] ==> field(s, "procid"@) is None,
        h.procid != seq!['-' as u8] ==> field(s, "procid"@) == Some(text::lossy(h.procid)),
        h.msgid == seq!['-' as u8] ==> field(s, "msgid"@) is None,
        h.msgid != seq!['-' as u8] ==> field(s, "msgid"@) == Some(text::lossy(h.msgid)),
        h.timestamp == seq!['-' as u8] ==> field(s, "ts"@) is None && reading(s).0
            == TsOutcome::Missing,
        h.timestamp != seq!['-' as u8] ==> field(s, "ts"@) == Some(text::lossy(h.timestamp))
            && reading(s).0 == (match parse::rfc3339(h.timestamp) {
            Some(t) => TsOutcome::Timed(t as i64),
            None => TsOutcome::Malformed,
        }),
        field(s, "msg"@) == Some(text::lossy(h.msg)),
        field(s, "level"@) == Some(severity::name_of(reading(s).1)),
        reading(s).1 == h.severity,
        key != "host"@ && key != "app"@ && key != "procid"@ && key != "msgid"@ && key != "ts"@
            && key != "msg"@ && key != "level"@ ==> field(s, key) == (match sd_field(
            h.sd,
            text::enc(key),
        ) {
            Some(v) => Some(text::lossy(v)),
            None => None,
        }),
{
    reveal_strlit("host");
    reveal_strlit("app");
    reveal_strlit("procid");
    reveal_strlit("msgid");
    reveal_strlit("ts");
    reveal_strlit("msg");
    reveal_strlit("level");
    assert("host"@.len() == 4 && "app"@.len() == 3 && "procid"@.len() == 6 && "msgid"@.len() == 5
        && "ts"@.len() == 2 && "msg"@.len() == 3 && "level"@.len() == 5);
    assert("app"@[0] == 'a' && "msg"@[0] == 'm' && "msgid"@[0] == 'm' && "level"@[0] == 'l');
    lemma_nil(h.hostname);
    lemma_nil(h.app);
    lemma_nil(h.procid);
    lemma_nil(h.msgid);
    lemma_nil(h.timestamp);
}

proof fn lemma_nil(b: Seq<u8>)
    ensures
        is_nil(b) <==> b == seq!['-' as u8],
{
    if is_nil(b) {
        assert(b =~= seq!['-' as u8]);
    }
}

/// A written line of version 1 is told by its frame.
pub proof fn law_written_line_has_the_frame(digits: Seq<u8>, h: Header, blocks: Seq<Block>)
    requires
        digits.len() > 0,
        scan::all_digits(digits),
        is_writable(h, blocks),
    ensures
        has_frame(with_priority(digits, written_rest(seq!['1' as u8], h, blocks))),
{
    let rest = written_rest(seq!['1' as u8], h, blocks);
    let s = with_priority(digits, rest);
    lemma_priority_digits(digits, rest);
    let p = digits.len() as int + 1;
    assert(s[p + 1] == rest[0]);
    assert(s[p + 2] == rest[1]);
}

} // verus!
