//! Parsing strategies, run over a whole buffer: how much does it cost to get
//! `ts` and `level` out of every line?
//!
//! The strategies see the same lines, so their counts can be held against each
//! other; timing them is the caller's work.

use vstd::prelude::*;

use crate::engine::parse;
use crate::engine::parse::{Slot, StringMember};
use crate::scan;
use crate::scan::ByteClass;
use crate::text;

verus! {

#[derive(Debug, Clone, Copy, PartialEq, Eq, Structural)]
pub struct Stats {
    pub lines: u64,
    pub bytes: u64,
    /// Summed lengths of the timestamps and levels: equal across parsers when
    /// they see the same fields.
    pub ts_chk: u64,
    pub lv_chk: u64,
    /// Severity tally.
    pub trace: u64,
    pub debug: u64,
    pub info: u64,
    pub warn: u64,
    pub error: u64,
    pub other: u64,
    pub parse_errors: u64,
}

impl Stats {
    pub open spec fn zero() -> Stats {
        Stats {
            lines: 0,
            bytes: 0,
            ts_chk: 0,
            lv_chk: 0,
            trace: 0,
            debug: 0,
            info: 0,
            warn: 0,
            error: 0,
            other: 0,
            parse_errors: 0,
        }
    }

    /// Every counter of records can take one more.
    pub open spec fn has_room(self) -> bool {
        self.trace < u64::MAX && self.debug < u64::MAX && self.info < u64::MAX && self.warn
            < u64::MAX && self.error < u64::MAX && self.other < u64::MAX && self.parse_errors
            < u64::MAX
    }

    /// One more line, with its newline.
    pub open spec fn with_line(self, line: Seq<u8>) -> Stats {
        Stats {
            lines: (self.lines + 1) as u64,
            bytes: (self.bytes + line.len() + 1) as u64,
            ..self
        }
    }

    /// One more record with a timestamp and a level.
    pub open spec fn tallied(self, ts: Seq<u8>, level: Seq<u8>) -> Stats {
        let s = Stats {
            ts_chk: self.ts_chk.wrapping_add(ts.len() as u64),
            lv_chk: self.lv_chk.wrapping_add(level.len() as u64),
            ..self
        };
        if level == text::enc("trace"@) {
            Stats { trace: (s.trace + 1) as u64, ..s }
        } else if level == text::enc("debug"@) {
            Stats { debug: (s.debug + 1) as u64, ..s }
        } else if level == text::enc("info"@) {
            Stats { info: (s.info + 1) as u64, ..s }
        } else if level == text::enc("warn"@) {
            Stats { warn: (s.warn + 1) as u64, ..s }
        } else if level == text::enc("error"@) {
            Stats { error: (s.error + 1) as u64, ..s }
        } else {
            Stats { other: (s.other + 1) as u64, ..s }
        }
    }

    /// One more reading: a timestamp and a level, or a line that is not read.
    pub open spec fn with_reading(self, reading: Option<(Seq<u8>, Seq<u8>)>) -> Stats {
        match reading {
            Some((ts, level)) => self.tallied(ts, level),
            None => Stats { parse_errors: (self.parse_errors + 1) as u64, ..self },
        }
    }

    /// Readings counted so far.
    pub open spec fn readings(self) -> int {
        self.trace + self.debug + self.info + self.warn + self.error + self.other
            + self.parse_errors
    }

    /// Count a record's timestamp and level.
    pub fn tally(&mut self, ts: &[u8], level: &[u8])
        requires
            old(self).has_room(),
        ensures
            *final(self) == old(self).tallied(ts@, level@),
            final(self).readings() == old(self).readings() + 1,
    {
        self.ts_chk = self.ts_chk.wrapping_add(ts.len() as u64);
        self.lv_chk = self.lv_chk.wrapping_add(level.len() as u64);
        if scan::bytes_eq(level, "trace".as_bytes()) {
            self.trace = self.trace + 1;
        } else if scan::bytes_eq(level, "debug".as_bytes()) {
            self.debug = self.debug + 1;
        } else if scan::bytes_eq(level, "info".as_bytes()) {
            self.info = self.info + 1;
        } else if scan::bytes_eq(level, "warn".as_bytes()) {
            self.warn = self.warn + 1;
        } else if scan::bytes_eq(level, "error".as_bytes()) {
            self.error = self.error + 1;
        } else {
            self.other = self.other + 1;
        }
    }
}

impl Default for Stats {
    fn default() -> (r: Self)
        ensures
            r == Stats::zero(),
    {
        Stats {
            lines: 0,
            bytes: 0,
            ts_chk: 0,
            lv_chk: 0,
            trace: 0,
            debug: 0,
            info: 0,
            warn: 0,
            error: 0,
            other: 0,
            parse_errors: 0,
        }
    }
}

/// The lines of a buffer from index `i` on that end in a newline.
pub open spec fn ended_lines(b: Seq<u8>, i: int) -> Seq<Seq<u8>>
    decreases b.len() - i,
{
    if !(0 <= i < b.len()) {
        Seq::empty()
    } else {
        let e = scan::run_end(b, i, ByteClass::Except('\n' as u8));
        if i <= e < b.len() {
            seq![b.subrange(i, e)] + ended_lines(b, e + 1)
        } else {
            Seq::empty()
        }
    }
}

/// Some slices as plain values.
pub open spec fn slice_views(v: Seq<&[u8]>) -> Seq<Seq<u8>> {
    Seq::new(v.len(), |i: int| v[i]@)
}

/// Bytes of some lines with their newlines.
pub open spec fn byte_count(lines: Seq<Seq<u8>>) -> int
    decreases lines.len(),
{
    if lines.len() == 0 {
        0
    } else {
        byte_count(lines.drop_last()) + lines.last().len() + 1
    }
}

/// The lines of a buffer that end in a newline, empty ones among them.
pub fn iter_lines<'a>(buf: &'a [u8]) -> (r: Vec<&'a [u8]>)
    ensures
        slice_views(r@) == ended_lines(buf@, 0),
        byte_count(slice_views(r@)) <= buf@.len(),
{
    let ghost all = ended_lines(buf@, 0);
    let mut out: Vec<&'a [u8]> = Vec::new();
    let mut start: usize = 0;
    assert(slice_views(out@) =~= Seq::empty());
    assert(slice_views(out@) + ended_lines(buf@, 0) =~= all);
    while start < buf.len()
        invariant
            start <= buf@.len(),
            all == ended_lines(buf@, 0),
            all == slice_views(out@) + ended_lines(buf@, start as int),
            byte_count(slice_views(out@)) == start,
        decreases buf@.len() - start,
    {
        let rest: &'a [u8] = &buf[start..buf.len()];
        match memchr::memchr('\n' as u8, rest) {
            None => {
                proof {
                    assert forall|k: int| start <= k < buf@.len() implies ByteClass::Except(
                        '\n' as u8,
                    ).has(#[trigger] buf@[k]) by {
                        assert(buf@[k] == rest@[k - start]);
                    }
                    scan::lemma_run_end_at(
                        buf@,
                        start as int,
                        buf@.len() as int,
                        ByteClass::Except('\n' as u8),
                    );
                    assert(slice_views(out@) =~= all);
                }
                return out;
            },
            Some(n) => {
                let end: usize = start + n;
                proof {
                    assert forall|k: int| start <= k < end implies ByteClass::Except(
                        '\n' as u8,
                    ).has(#[trigger] buf@[k]) by {
                        assert(buf@[k] == rest@[k - start]);
                    }
                    assert(buf@[end as int] == rest@[n as int]);
                    scan::lemma_run_end_at(
                        buf@,
                        start as int,
                        end as int,
                        ByteClass::Except('\n' as u8),
                    );
                }
                let line: &'a [u8] = &buf[start..end];
                let ghost before = slice_views(out@);
                out.push(line);
                proof {
                    assert(slice_views(out@) =~= before.push(line@));
                    assert(slice_views(out@).drop_last() =~= before);
                    assert(before + (seq![line@] + ended_lines(buf@, end + 1)) =~= before.push(
                        line@,
                    ) + ended_lines(buf@, end + 1));
                }
                start = end + 1;
            },
        }
    }
    assert(slice_views(out@) =~= all);
    out
}

/// Counts after the raw scan of some lines: the length of each is summed, and
/// nothing is parsed.
pub open spec fn raw_counts(lines: Seq<Seq<u8>>) -> Stats
    decreases lines.len(),
{
    if lines.len() == 0 {
        Stats::zero()
    } else {
        let s = raw_counts(lines.drop_last());
        let line = lines.last();
        if line.len() == 0 {
            s
        } else {
            let t = s.with_line(line);
            Stats { ts_chk: t.ts_chk.wrapping_add(line.len() as u64), ..t }
        }
    }
}

proof fn lemma_count_grows(lines: Seq<Seq<u8>>, n: int)
    requires
        0 <= n <= lines.len(),
    ensures
        0 <= byte_count(lines.take(n)) <= byte_count(lines),
        n <= byte_count(lines.take(n)),
    decreases lines.len(),
{
    if n == lines.len() {
        assert(lines.take(n) =~= lines);
        if n > 0 {
            lemma_count_grows(lines.drop_last(), n - 1);
            assert(lines.drop_last().take(n - 1) =~= lines.drop_last());
        }
    } else {
        lemma_count_grows(lines.drop_last(), n);
        assert(lines.drop_last().take(n) =~= lines.take(n));
    }
}

/// Walk a buffer line by line without parsing: the floor that any parser is
/// measured against.
pub fn run_raw_scan(buf: &[u8]) -> (r: Stats)
    ensures
        r == raw_counts(ended_lines(buf@, 0)),
{
    let lines: Vec<&[u8]> = iter_lines(buf);
    let ghost all = slice_views(lines@);
    let mut s: Stats = Stats::default();
    let mut i: usize = 0;
    let size: usize = buf.len();
    assert(all.take(0) =~= Seq::empty());
    while i < lines.len()
        invariant
            i <= lines@.len(),
            all == slice_views(lines@),
            byte_count(all) <= size,
            s == raw_counts(all.take(i as int)),
            s.lines <= i,
            s.bytes <= byte_count(all.take(i as int)),
        decreases lines@.len() - i,
    {
        let line: &[u8] = lines[i];
        proof {
            assert(all.take(i + 1).drop_last() =~= all.take(i as int));
            assert(all.take(i + 1).last() == line@);
            lemma_count_grows(all, i + 1);
        }
        if line.len() > 0 {
            s.lines = s.lines + 1;
            s.bytes = s.bytes + line.len() as u64 + 1;
            s.ts_chk = s.ts_chk.wrapping_add(line.len() as u64);
        }
        i = i + 1;
    }
    assert(all.take(all.len() as int) =~= all);
    s
}

/// The timestamp and the level of a record, when both are strings that can be
/// read in place.
pub open spec fn borrowed_reading(slots: Option<(StringMember, StringMember)>) -> Option<
    (Seq<u8>, Seq<u8>),
> {
    match slots {
        Some((StringMember::Text(ts), StringMember::Text(level))) => Some((ts, level)),
        _ => None,
    }
}

/// Counts after reading the timestamp and the level of every line with a
/// parser that borrows them.
pub open spec fn borrow_counts(lines: Seq<Seq<u8>>) -> Stats
    decreases lines.len(),
{
    if lines.len() == 0 {
        Stats::zero()
    } else {
        let s = borrow_counts(lines.drop_last());
        let line = lines.last();
        if line.len() == 0 {
            s
        } else {
            s.with_line(line).with_reading(borrowed_reading(parse::line_slots(line)))
        }
    }
}

/// Count one line by its timestamp and level.
pub fn count_slots(s: &mut Stats, slots: Option<(Slot<'_>, Slot<'_>)>)
    requires
        old(s).has_room(),
    ensures
        *final(s) == old(s).with_reading(borrowed_reading(parse::slot_members(slots))),
        final(s).readings() == old(s).readings() + 1,
{
    match slots {
        Some((Slot::Text(ts), Slot::Text(level))) => s.tally(ts, level),
        _ => {
            s.parse_errors = s.parse_errors + 1;
        },
    }
}

/// Parse every line with `serde_json`, borrowing the two fields.
pub fn run_serde_borrow(buf: &[u8]) -> (r: Stats)
    ensures
        r == borrow_counts(ended_lines(buf@, 0)),
{
    let lines: Vec<&[u8]> = iter_lines(buf);
    let ghost all = slice_views(lines@);
    let mut s: Stats = Stats::default();
    let mut i: usize = 0;
    let size: usize = buf.len();
    assert(all.take(0) =~= Seq::empty());
    while i < lines.len()
        invariant
            i <= lines@.len(),
            all == slice_views(lines@),
            byte_count(all) <= size,
            s == borrow_counts(all.take(i as int)),
            s.lines <= i,
            s.readings() == s.lines,
            s.bytes <= byte_count(all.take(i as int)),
        decreases lines@.len() - i,
    {
        let line: &[u8] = lines[i];
        proof {
            assert(all.take(i + 1).drop_last() =~= all.take(i as int));
            assert(all.take(i + 1).last() == line@);
            lemma_count_grows(all, i + 1);
        }
        if line.len() > 0 {
            s.lines = s.lines + 1;
            s.bytes = s.bytes + line.len() as u64 + 1;
            count_slots(&mut s, parse::find_slots(line));
        }
        i = i + 1;
    }
    assert(all.take(all.len() as int) =~= all);
    s
}

/// The texts of two members of the object that `simd_json` reads in a line:
/// nothing when it reads none; inside that, nothing for a member that is
/// missing or no string.
pub uninterp spec fn simd_texts(line: Seq<u8>, a: Seq<char>, b: Seq<char>) -> Option<
    (Option<Seq<char>>, Option<Seq<char>>),
>;

/// A reply as plain values.
pub open spec fn reply_view(reply: Option<(Option<String>, Option<String>)>) -> Option<
    (Option<Seq<char>>, Option<Seq<char>>),
> {
    match reply {
        Some((a, b)) => Some((text::opt_view(a), text::opt_view(b))),
        None => None,
    }
}

/// `simd_json::to_borrowed_value` on a copy of the line, and the texts of two
/// members of the object it gives; nothing when it gives none. The result is a
/// function of the line and the two names.
#[verifier::external_body]
fn simd_members(line: &[u8], a: &str, b: &str) -> (r: Option<(Option<String>, Option<String>)>)
    ensures
        reply_view(r) == simd_texts(line@, a@, b@),
{
    let mut scratch = line.to_vec();
    let value = simd_json::to_borrowed_value(&mut scratch).ok()?;
    let simd_json::BorrowedValue::Object(obj) = value else {
        return None;
    };
    let text = |k: &str| match obj.get(k) {
        Some(simd_json::BorrowedValue::String(s)) => Some(s.to_string()),
        _ => None,
    };
    Some((text(a), text(b)))
}

/// The UTF-8 of a text, or nothing.
pub open spec fn or_empty(s: Option<Seq<char>>) -> Seq<u8> {
    match s {
        Some(x) => text::enc(x),
        None => Seq::empty(),
    }
}

/// What a reply comes to: a member that is missing or no string is empty.
pub open spec fn reply_reading(reply: Option<(Option<Seq<char>>, Option<Seq<char>>)>) -> Option<
    (Seq<u8>, Seq<u8>),
> {
    match reply {
        Some((ts, level)) => Some((or_empty(ts), or_empty(level))),
        None => None,
    }
}

/// Counts after reading the timestamp and the level of every line with
/// `simd_json`.
pub open spec fn simd_counts(lines: Seq<Seq<u8>>) -> Stats
    decreases lines.len(),
{
    if lines.len() == 0 {
        Stats::zero()
    } else {
        let s = simd_counts(lines.drop_last());
        let line = lines.last();
        if line.len() == 0 {
            s
        } else {
            s.with_line(line).with_reading(
                reply_reading(simd_texts(line, "ts"@, "level"@)),
            )
        }
    }
}

/// Count one line by what the parser gave: a member that is missing or no
/// string counts as empty, and a line that is no object as an error.
pub fn count_reply(s: &mut Stats, reply: &Option<(Option<String>, Option<String>)>)
    requires
        old(s).has_room(),
    ensures
        *final(s) == old(s).with_reading(reply_reading(reply_view(*reply))),
        final(s).readings() == old(s).readings() + 1,
{
    let none: &[u8] = &[];
    assert(none@ =~= Seq::empty());
    match reply {
        Some((ts, level)) => {
            let t: &[u8] = match ts {
                Some(x) => x.as_str().as_bytes(),
                None => none,
            };
            let l: &[u8] = match level {
                Some(x) => x.as_str().as_bytes(),
                None => none,
            };
            s.tally(t, l);
        },
        None => {
            s.parse_errors = s.parse_errors + 1;
        },
    }
}

/// Parse every line with `simd_json`.
pub fn run_simd_json(buf: &[u8]) -> (r: Stats)
    ensures
        r == simd_counts(ended_lines(buf@, 0)),
{
    let lines: Vec<&[u8]> = iter_lines(buf);
    let ghost all = slice_views(lines@);
    let mut s: Stats = Stats::default();
    let mut i: usize = 0;
    let size: usize = buf.len();
    assert(all.take(0) =~= Seq::empty());
    while i < lines.len()
        invariant
            i <= lines@.len(),
            all == slice_views(lines@),
            byte_count(all) <= size,
            s == simd_counts(all.take(i as int)),
            s.lines <= i,
            s.readings() == s.lines,
            s.bytes <= byte_count(all.take(i as int)),
        decreases lines@.len() - i,
    {
        let line: &[u8] = lines[i];
        proof {
            assert(all.take(i + 1).drop_last() =~= all.take(i as int));
            assert(all.take(i + 1).last() == line@);
            lemma_count_grows(all, i + 1);
        }
        if line.len() > 0 {
            s.lines = s.lines + 1;
            s.bytes = s.bytes + line.len() as u64 + 1;
            let reply: Option<(Option<String>, Option<String>)> = simd_members(
                line,
                "ts",
                "level",
            );
            count_reply(&mut s, &reply);
        }
        i = i + 1;
    }
    assert(all.take(all.len() as int) =~= all);
    s
}

/// The strategies see the same lines.
pub proof fn law_strategies_see_the_same_lines(lines: Seq<Seq<u8>>)
    ensures
        raw_counts(lines).lines == borrow_counts(lines).lines,
        raw_counts(lines).bytes == borrow_counts(lines).bytes,
        raw_counts(lines).lines == simd_counts(lines).lines,
        raw_counts(lines).bytes == simd_counts(lines).bytes,
    decreases lines.len(),
{
    if lines.len() > 0 {
        law_strategies_see_the_same_lines(lines.drop_last());
    }
}

/// A line with its newline before a buffer is one line more of it. What stands
/// behind the last newline is no line.
pub proof fn law_lines_end_at_newlines(line: Seq<u8>, rest: Seq<u8>)
    requires
        !line.contains('\n' as u8),
    ensures
        ended_lines(line, 0).len() == 0,
        ended_lines(line + seq!['\n' as u8] + rest, 0) == seq![line] + ended_lines(rest, 0),
{
    let class = ByteClass::Except('\n' as u8);
    assert forall|k: int| 0 <= k < line.len() implies class.has(#[trigger] line[k]) by {
        assert(line.contains(line[k]));
    }
    scan::lemma_run_end_at(line, 0, line.len() as int, class);
    let b = line + seq!['\n' as u8] + rest;
    assert forall|k: int| 0 <= k < line.len() implies class.has(#[trigger] b[k]) by {
        assert(b[k] == line[k]);
    }
    assert(b[line.len() as int] == '\n' as u8);
    scan::lemma_run_end_at(b, 0, line.len() as int, class);
    assert(b.subrange(0, line.len() as int) =~= line);
    lemma_lines_moved(b, rest, 0, line.len() as int + 1);
}

/// The lines of the end of a buffer are those of that end alone.
proof fn lemma_lines_moved(b: Seq<u8>, rest: Seq<u8>, i: int, by: int)
    requires
        0 <= by,
        0 <= i <= rest.len(),
        b.len() == by + rest.len(),
        forall|k: int| 0 <= k < rest.len() ==> #[trigger] rest[k] == b[k + by],
    ensures
        ended_lines(b, i + by) == ended_lines(rest, i),
    decreases rest.len() - i,
{
    let class = ByteClass::Except('\n' as u8);
    if i < rest.len() {
        scan::lemma_run_end(rest, i, class);
        let e = scan::run_end(rest, i, class);
        assert forall|k: int| i + by <= k < e + by implies class.has(#[trigger] b[k]) by {
            assert(class.has(rest[k - by]));
        }
        if e < rest.len() {
            assert(rest[e] == b[e + by]);
        }
        scan::lemma_run_end_at(b, i + by, e + by, class);
        if e < rest.len() {
            assert(b.subrange(i + by, e + by) =~= rest.subrange(i, e));
            lemma_lines_moved(b, rest, e + 1, by);
        }
    }
}

/// A reading is counted once, under its level where that is one of the five
/// and as another one where it is not.
pub proof fn law_reading_is_counted_once(s: Stats, ts: Seq<u8>, level: Seq<u8>)
    requires
        s.has_room(),
    ensures
        ({
            let t = s.with_reading(Some((ts, level)));
            let named = |name: Seq<char>| if level == text::enc(name) { 1int } else { 0int };
            &&& t.readings() == s.readings() + 1
            &&& t.trace == s.trace + named("trace"@)
            &&& t.debug == s.debug + named("debug"@)
            &&& t.info == s.info + named("info"@)
            &&& t.warn == s.warn + named("warn"@)
            &&& t.error == s.error + named("error"@)
            &&& t.parse_errors == s.parse_errors
            &&& t.lines == s.lines
            &&& t.bytes == s.bytes
        }),
        s.with_reading(None).readings() == s.readings() + 1,
        s.with_reading(None).parse_errors == s.parse_errors + 1,
{
    reveal_strlit("trace");
    reveal_strlit("debug");
    reveal_strlit("info");
    reveal_strlit("warn");
    reveal_strlit("error");
    assert("trace"@[0] == 't');
    assert("debug"@[0] == 'd');
    assert("info"@[0] == 'i');
    assert("warn"@[0] == 'w');
    assert("error"@[0] == 'e');
    text::lemma_encoding_injective("trace"@, "debug"@);
    text::lemma_encoding_injective("trace"@, "info"@);
    text::lemma_encoding_injective("trace"@, "warn"@);
    text::lemma_encoding_injective("trace"@, "error"@);
    text::lemma_encoding_injective("debug"@, "info"@);
    text::lemma_encoding_injective("debug"@, "warn"@);
    text::lemma_encoding_injective("debug"@, "error"@);
    text::lemma_encoding_injective("info"@, "warn"@);
    text::lemma_encoding_injective("info"@, "error"@);
    text::lemma_encoding_injective("warn"@, "error"@);
}

} // verus!
