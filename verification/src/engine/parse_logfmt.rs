//! logfmt parser: Go/Heroku-style `key=value key="value with spaces"` lines.
//!
//! Reference: <https://brandur.org/logfmt>. Pairs are whitespace-separated.
//! Values are either bare (no spaces, no quotes) or quoted with `"`; inside
//! quotes, `\"` escapes a literal quote and `\\` escapes a backslash. Anything
//! else inside quotes is verbatim.

use vstd::prelude::*;

use crate::scan;
use crate::scan::ByteClass;
use crate::engine::parse;
use crate::engine::parse::{FieldNames, ParseStats, TsOutcome};
use crate::engine::quoted;
use crate::engine::quoted::{QuotedText, Token};
use crate::engine::record::severity;
use crate::text;

verus! {

/// One pair: a key and the token of its value.
pub type Pair = (Seq<u8>, Token);

/// The pair at the start of `s`, with the index behind it; nothing when only
/// blanks and stray `=` are left.
pub open spec fn first_pair(s: Seq<u8>, from: int) -> Option<(Pair, int)>
    decreases s.len() - from,
{
    let i = scan::run_end(s, from, ByteClass::Blank);
    if !(0 <= from <= i < s.len()) {
        None
    } else {
        let j = scan::run_end(s, i, ByteClass::ExceptAny('=' as u8, ' ' as u8, '\t' as u8));
        let key = s.subrange(i, j);
        if j == i {
            first_pair(s, i + 1)
        } else if j >= s.len() || s[j] != '=' as u8 {
            Some(((key, quoted::verbatim(Seq::empty())), j))
        } else if j + 1 < s.len() && s[j + 1] == '"' as u8 {
            let q = quoted::quoted(s, j + 2);
            Some(((key, q.token()), q.end))
        } else {
            let k = scan::run_end(s, j + 1, ByteClass::ExceptEither(' ' as u8, '\t' as u8));
            Some(((key, quoted::verbatim(s.subrange(j + 1, k))), k))
        }
    }
}

/// A pair takes up at least one byte and ends inside the line.
pub proof fn lemma_first_pair(s: Seq<u8>, from: int)
    requires
        0 <= from <= s.len(),
    ensures
        first_pair(s, from) matches Some((p, end)) ==> from < end <= s.len(),
    decreases s.len() - from,
{
    scan::lemma_run_end(s, from, ByteClass::Blank);
    let i = scan::run_end(s, from, ByteClass::Blank);
    if i < s.len() {
        let class = ByteClass::ExceptAny('=' as u8, ' ' as u8, '\t' as u8);
        scan::lemma_run_end(s, i, class);
        let j = scan::run_end(s, i, class);
        if j == i {
            lemma_first_pair(s, i + 1);
        } else if j < s.len() && s[j] == '=' as u8 {
            if j + 1 < s.len() && s[j + 1] == '"' as u8 {
                quoted::lemma_quoted_end(s, j + 2);
            } else {
                scan::lemma_run_end(s, j + 1, ByteClass::ExceptEither(' ' as u8, '\t' as u8));
            }
        }
    }
}

/// The pairs of a line from index `from` on, in order.
pub open spec fn pairs_from(s: Seq<u8>, from: int) -> Seq<Pair>
    decreases s.len() - from,
{
    if 0 <= from <= s.len() {
        match first_pair(s, from) {
            None => Seq::empty(),
            Some((p, end)) => if from < end <= s.len() {
                seq![p] + pairs_from(s, end)
            } else {
                seq![p]
            },
        }
    } else {
        Seq::empty()
    }
}

/// All pairs of a line.
pub open spec fn pairs(s: Seq<u8>) -> Seq<Pair> {
    pairs_from(s, 0)
}

/// A value produced by the scanner. A slice of the line when the value is
/// written without escapes; an owned string when one had to be expanded.
pub enum LogfmtValue<'a> {
    Borrowed(&'a [u8]),
    Owned(String),
}

impl<'a> LogfmtValue<'a> {
    /// The value is what the scanner read as `t`.
    pub open spec fn is_token(self, t: Token) -> bool {
        match self {
            LogfmtValue::Borrowed(b) => !t.escaped && b@ == t.body,
            LogfmtValue::Owned(s) => t.escaped && s@ == text::lossy(t.body),
        }
    }

    pub open spec fn bytes(self) -> Seq<u8> {
        match self {
            LogfmtValue::Borrowed(b) => b@,
            LogfmtValue::Owned(s) => text::enc(s@),
        }
    }

    pub fn as_bytes(&self) -> (r: &[u8])
        ensures
            r@ == self.bytes(),
    {
        match self {
            LogfmtValue::Borrowed(b) => b,
            LogfmtValue::Owned(s) => s.as_str().as_bytes(),
        }
    }

    pub fn as_str(&self) -> (r: Option<&str>)
        ensures
            match *self {
                LogfmtValue::Borrowed(b) => match text::decoded(b@) {
                    Some(t) => r matches Some(x) && x@ == t,
                    None => r is None,
                },
                LogfmtValue::Owned(s) => r matches Some(x) && x@ == s@,
            },
    {
        match self {
            LogfmtValue::Borrowed(b) => text::from_utf8(b),
            LogfmtValue::Owned(s) => Some(s.as_str()),
        }
    }
}

/// Scan of a logfmt line. [`LogfmtPairs::next`] yields `(key, value)` pairs,
/// with `value` already unescaped if it was quoted.
pub struct LogfmtPairs<'a> {
    line: &'a [u8],
    at: usize,
}

impl<'a> LogfmtPairs<'a> {
    pub closed spec fn wf(self) -> bool {
        self.at <= self.line@.len()
    }

    /// The pairs still to come.
    pub closed spec fn remaining(self) -> Seq<Pair> {
        pairs_from(self.line@, self.at as int)
    }

    /// Bytes not yet scanned.
    pub closed spec fn left(self) -> nat {
        (self.line@.len() - self.at) as nat
    }

    pub fn new(line: &'a [u8]) -> (r: Self)
        ensures
            r.wf(),
            r.remaining() == pairs(line@),
    {
        LogfmtPairs { line, at: 0 }
    }

    pub fn next(&mut self) -> (r: Option<(&'a [u8], LogfmtValue<'a>)>)
        requires
            old(self).wf(),
        ensures
            final(self).wf(),
            match r {
                Some((key, value)) => {
                    &&& old(self).remaining().len() > 0
                    &&& key@ == old(self).remaining()[0].0
                    &&& value.is_token(old(self).remaining()[0].1)
                    &&& final(self).remaining() == old(self).remaining().skip(1)
                    &&& final(self).left() < old(self).left()
                },
                None => old(self).remaining().len() == 0 && final(self).remaining().len() == 0,
            },
    {
        let line: &'a [u8] = self.line;
        let ghost start = self.at as int;
        proof {
            lemma_first_pair(line@, start);
        }
        let key_class: ByteClass = ByteClass::ExceptAny('=' as u8, ' ' as u8, '\t' as u8);
        let mut i: usize = scan::skip(line, self.at, ByteClass::Blank);
        let mut j: usize = scan::skip(line, i, key_class);
        while i < line.len() && j == i
            invariant
                line == self.line,
                self.at == start,
                0 <= start <= i <= line@.len(),
                key_class == ByteClass::ExceptAny('=' as u8, ' ' as u8, '\t' as u8),
                i == scan::run_end(line@, i as int, ByteClass::Blank),
                j == scan::run_end(line@, i as int, key_class),
                i <= j <= line@.len(),
                first_pair(line@, start) == first_pair(line@, i as int),
            decreases line@.len() - i,
        {
            proof {
                lemma_blank_run_stops(line@, i + 1);
            }
            i = scan::skip(line, i + 1, ByteClass::Blank);
            j = scan::skip(line, i, key_class);
        }
        let ghost all = pairs_from(line@, start);
        if i >= line.len() {
            assert(first_pair(line@, start) is None);
            assert(pairs_from(line@, start) =~= Seq::empty());
            return None;
        }
        let key: &'a [u8] = &line[i..j];
        if j >= line.len() || line[j] != '=' as u8 {
            proof {
                let rest = pairs_from(line@, j as int);
                assert(all == seq![(key@, quoted::verbatim(Seq::empty()))] + rest);
                assert(all.skip(1) =~= rest);
            }
            self.at = j;
            let empty: &'a [u8] = &line[j..j];
            assert(empty@ =~= Seq::empty());
            return Some((key, LogfmtValue::Borrowed(empty)));
        }
        if j + 1 < line.len() && line[j + 1] == '"' as u8 {
            let (value, end) = quoted::scan_quoted(line, j + 2);
            proof {
                let rest = pairs_from(line@, end as int);
                assert(all == seq![(key@, quoted::quoted(line@, j + 2).token())] + rest);
                assert(all.skip(1) =~= rest);
            }
            self.at = end;
            let value: LogfmtValue<'a> = match value {
                QuotedText::Raw(b) => LogfmtValue::Borrowed(b),
                QuotedText::Unescaped(s) => LogfmtValue::Owned(s),
            };
            Some((key, value))
        } else {
            let k: usize = scan::skip(
                line,
                j + 1,
                ByteClass::ExceptEither(' ' as u8, '\t' as u8),
            );
            proof {
                let rest = pairs_from(line@, k as int);
                assert(all == seq![
                    (key@, quoted::verbatim(line@.subrange(j + 1, k as int))),
                ] + rest);
                assert(all.skip(1) =~= rest);
            }
            self.at = k;
            Some((key, LogfmtValue::Borrowed(&line[j + 1..k])))
        }
    }
}

/// A run of blanks ends where no blank stands.
proof fn lemma_blank_run_stops(s: Seq<u8>, i: int)
    requires
        0 <= i <= s.len(),
    ensures
        ({
            let e = scan::run_end(s, i, ByteClass::Blank);
            e == scan::run_end(s, e, ByteClass::Blank) && first_pair(s, i) == first_pair(s, e)
        }),
{
    scan::lemma_run_end(s, i, ByteClass::Blank);
}

/// What a line's pairs say of its timestamp and level. A later pair with the
/// same key overrides an earlier one, but a timestamp that does not parse
/// never displaces one that does.
pub open spec fn gathered(pairs: Seq<Pair>, ts: Seq<u8>, level: Seq<u8>, acc: parse::Found) -> parse::Found
    decreases pairs.len(),
{
    if pairs.len() == 0 {
        acc
    } else {
        let (key, value) = pairs[0];
        let seen = acc.with_pair();
        gathered(
            pairs.skip(1),
            ts,
            level,
            if key == ts {
                match value.text() {
                    Some(t) => seen.with_ts(parse::rfc3339(text::enc(t))),
                    None => seen.with_ts(None),
                }
            } else if key == level {
                seen.with_level(severity::rank_of(value.bytes()))
            } else {
                seen
            },
        )
    }
}

/// The outcome and severity of a logfmt line.
pub open spec fn reading(line: Seq<u8>, fields: Option<&FieldNames>) -> (TsOutcome, u8) {
    gathered(
        pairs(line),
        text::enc(parse::ts_key(fields)),
        text::enc(parse::level_key(fields)),
        parse::nothing_found(),
    ).reading()
}

/// Scan once, extract ts and level, skip everything else.
pub fn ts_and_level(line: &[u8], stats: &mut ParseStats, fields: Option<&FieldNames>) -> (r: (
    i64,
    u8,
))
    requires
        old(stats).has_room(),
    ensures
        r.0 == reading(line@, fields).0.micros(),
        r.1 == reading(line@, fields).1,
        *final(stats) == old(stats).counting(reading(line@, fields).0),
{
    let ts_key: &[u8] = parse::ts_key_of(fields).as_bytes();
    let level_key: &[u8] = parse::level_key_of(fields).as_bytes();
    let mut found: parse::Found = parse::Found::none();
    let mut scan: LogfmtPairs = LogfmtPairs::new(line);
    let ghost whole = gathered(pairs(line@), ts_key@, level_key@, found);
    loop
        invariant
            scan.wf(),
            gathered(scan.remaining(), ts_key@, level_key@, found) == whole,
        ensures
            found == whole,
        decreases scan.left(),
    {
        match scan.next() {
            None => {
                break;
            },
            Some((key, value)) => {
                found = found.see_pair();
                if scan::bytes_eq(key, ts_key) {
                    match value.as_str() {
                        Some(s) => {
                            let t: Option<i64> = parse::parse_rfc3339_micros(s);
                            found = found.see_ts(t);
                        },
                        None => {
                            found = found.see_ts(None);
                        },
                    }
                } else if scan::bytes_eq(key, level_key) {
                    found = found.see_level(severity::from_bytes(value.as_bytes()));
                }
            },
        }
    }
    let (outcome, sev) = found.outcome();
    (stats.count(outcome), sev)
}

/// The value of the first pair with that key.
pub open spec fn lookup(pairs: Seq<Pair>, key: Seq<u8>) -> Option<Token>
    decreases pairs.len(),
{
    if pairs.len() == 0 {
        None
    } else if pairs[0].0 == key {
        Some(pairs[0].1)
    } else {
        lookup(pairs.skip(1), key)
    }
}

/// The text of a field: that of the first pair with its key.
pub open spec fn field(line: Seq<u8>, key: Seq<char>) -> Option<Seq<char>> {
    match lookup(pairs(line), text::enc(key)) {
        Some(t) => t.text(),
        None => None,
    }
}

/// Look up a single field by name: the value of the first pair with that key,
/// if it is text.
pub fn project_field(line: &[u8], key: &str) -> (r: Option<String>)
    ensures
        text::opt_view(r) == field(line@, key@),
{
    let wanted: &[u8] = key.as_bytes();
    let mut scan: LogfmtPairs = LogfmtPairs::new(line);
    loop
        invariant
            scan.wf(),
            wanted@ == text::enc(key@),
            lookup(scan.remaining(), wanted@) == lookup(pairs(line@), wanted@),
        ensures
            lookup(pairs(line@), wanted@) is None,
        decreases scan.left(),
    {
        match scan.next() {
            None => {
                break;
            },
            Some((k, v)) => {
                if scan::bytes_eq(k, wanted) {
                    return match v.as_str() {
                        Some(s) => Some(s.to_owned()),
                        None => None,
                    };
                }
            },
        }
    }
    None
}

proof fn lemma_gathered_sound(pairs: Seq<Pair>, ts: Seq<u8>, level: Seq<u8>, acc: parse::Found)
    requires
        acc.is_sound(),
    ensures
        gathered(pairs, ts, level, acc).is_sound(),
    decreases pairs.len(),
{
    if pairs.len() > 0 {
        let (key, value) = pairs[0];
        let seen = acc.with_pair();
        if let Some(t) = value.text() {
            parse::lemma_rfc3339_range(text::enc(t));
        }
        lemma_gathered_sound(
            pairs.skip(1),
            ts,
            level,
            if key == ts {
                match value.text() {
                    Some(t) => seen.with_ts(parse::rfc3339(text::enc(t))),
                    None => seen.with_ts(None),
                }
            } else if key == level {
                seen.with_level(severity::rank_of(value.bytes()))
            } else {
                seen
            },
        );
    }
}

/// A reading's severity is a rank, and a time in it is no mark of an untimed
/// record.
pub proof fn lemma_reading_sound(line: Seq<u8>, fields: Option<&FieldNames>)
    ensures
        parse::is_sound(reading(line, fields)),
{
    lemma_gathered_sound(
        pairs(line),
        text::enc(parse::ts_key(fields)),
        text::enc(parse::level_key(fields)),
        parse::nothing_found(),
    );
}

/// A key that a line can hold: not empty, with no `=` and no blank in it.
pub open spec fn is_key(key: Seq<u8>) -> bool {
    key.len() > 0 && forall|k: int|
        0 <= k < key.len() ==> #[trigger] key[k] != '=' as u8 && key[k] != ' ' as u8 && key[k]
            != '\t' as u8
}

/// `key="value"`, the value with its escapes.
pub open spec fn written_pair(key: Seq<u8>, value: Seq<char>) -> Seq<u8> {
    key + seq!['=' as u8, '"' as u8] + (quoted::escaped(text::enc(value)) + seq!['"' as u8])
}

/// Pairs written one behind the other, with a space between two.
pub open spec fn written(all: Seq<(Seq<u8>, Seq<char>)>) -> Seq<u8>
    decreases all.len(),
{
    if all.len() == 0 {
        Seq::empty()
    } else if all.len() == 1 {
        written_pair(all[0].0, all[0].1)
    } else {
        written_pair(all[0].0, all[0].1) + (seq![' ' as u8] + written(all.skip(1)))
    }
}

/// The pair as it is read back.
pub open spec fn read_back(key: Seq<u8>, value: Seq<char>) -> Pair {
    (
        key,
        Token { body: text::enc(value), escaped: quoted::needs_escape(text::enc(value)) },
    )
}

proof fn lemma_written_pair_is_read(s: Seq<u8>, from: int, i: int, key: Seq<u8>, value: Seq<char>)
    requires
        0 <= from <= i,
        forall|k: int| from <= k < i ==> ByteClass::Blank.has(#[trigger] s[k]),
        is_key(key),
        scan::stands(s, i, written_pair(key, value)),
    ensures
        first_pair(s, from) == Some((read_back(key, value), i + written_pair(key, value).len())),
        i + written_pair(key, value).len() <= s.len(),
{
    let class = ByteClass::ExceptAny('=' as u8, ' ' as u8, '\t' as u8);
    let open = seq!['=' as u8, '"' as u8];
    let body = quoted::escaped(text::enc(value)) + seq!['"' as u8];
    scan::lemma_halves(s, i, key + open, body);
    scan::lemma_halves(s, i, key, open);
    scan::lemma_stands_byte(s, i, key, 0);
    scan::lemma_stands_byte(s, i + key.len(), open, 0);
    scan::lemma_stands_byte(s, i + key.len(), open, 1);
    scan::lemma_run_end_at(s, from, i, ByteClass::Blank);
    scan::lemma_stands_run(s, i, key, class);
    scan::lemma_stands_subrange(s, i, key);
    quoted::lemma_written_is_read(s, i + key.len() + 2, text::enc(value));
}

proof fn lemma_written_from(s: Seq<u8>, from: int, i: int, all: Seq<(Seq<u8>, Seq<char>)>)
    requires
        0 <= from <= i,
        forall|k: int| from <= k < i ==> ByteClass::Blank.has(#[trigger] s[k]),
        forall|k: int| 0 <= k < all.len() ==> is_key(#[trigger] all[k].0),
        scan::stands(s, i, written(all)),
        i + written(all).len() == s.len(),
        all.len() > 0,
    ensures
        pairs_from(s, from) =~= Seq::new(all.len(), |k: int| read_back(all[k].0, all[k].1)),
    decreases all.len(),
{
    let (key, value) = all[0];
    let one = written_pair(key, value);
    let end = i + one.len();
    assert(is_key(all[0].0));
    if all.len() == 1 {
        lemma_written_pair_is_read(s, from, i, key, value);
        assert(first_pair(s, end) is None);
        assert(pairs_from(s, end) =~= Seq::empty());
    } else {
        let more = all.skip(1);
        let space = seq![' ' as u8];
        scan::lemma_halves(s, i, one, space + written(more));
        scan::lemma_halves(s, end, space, written(more));
        scan::lemma_stands_byte(s, end, space, 0);
        lemma_written_pair_is_read(s, from, i, key, value);
        assert forall|k: int| 0 <= k < more.len() implies is_key(#[trigger] more[k].0) by {
            assert(more[k] == all[k + 1]);
        }
        lemma_written_from(s, end, end + 1, more);
    }
}

/// Pairs that are written to a line are read from it: the same keys and the
/// same texts, in order, whatever quotes, backslashes and blanks the values
/// hold.
pub proof fn law_written_pairs_are_read(all: Seq<(Seq<u8>, Seq<char>)>)
    requires
        forall|k: int| 0 <= k < all.len() ==> is_key(#[trigger] all[k].0),
    ensures
        pairs(written(all)).len() == all.len(),
        forall|k: int|
            0 <= k < all.len() ==> {
                &&& (#[trigger] pairs(written(all))[k]).0 == all[k].0
                &&& pairs(written(all))[k].1.text() == Some(all[k].1)
                &&& pairs(written(all))[k].1.bytes() == text::enc(all[k].1)
            },
{
    let s = written(all);
    if all.len() == 0 {
        assert(first_pair(s, 0) is None);
    } else {
        scan::lemma_whole(s);
        lemma_written_from(s, 0, 0, all);
        assert forall|k: int| 0 <= k < all.len() implies {
            &&& (#[trigger] pairs(s)[k]).0 == all[k].0
            &&& pairs(s)[k].1.text() == Some(all[k].1)
            &&& pairs(s)[k].1.bytes() == text::enc(all[k].1)
        } by {
            assert(pairs(s)[k] == read_back(all[k].0, all[k].1));
            text::lemma_lossy_of_text(all[k].1);
        }
    }
}

/// The level of the last pair with the level's key, and the time of the last
/// pair with the timestamp's key that parses.
proof fn lemma_gathered_last(
    pairs: Seq<Pair>,
    ts: Seq<u8>,
    level: Seq<u8>,
    acc: parse::Found,
    k: int,
)
    requires
        ts != level,
        -1 <= k < pairs.len(),
    ensures
        pairs.len() > 0 ==> gathered(pairs, ts, level, acc).any,
        k >= 0 && pairs[k].0 == level && (forall|j: int|
            k < j < pairs.len() ==> #[trigger] pairs[j].0 != level) ==> gathered(
            pairs,
            ts,
            level,
            acc,
        ).level == severity::rank_of(pairs[k].1.bytes()),
        (forall|j: int| 0 <= j < pairs.len() ==> #[trigger] pairs[j].0 != level) ==> gathered(
            pairs,
            ts,
            level,
            acc,
        ).level == acc.level,
        k >= 0 && pairs[k].0 == ts && stamp(pairs[k].1) is Some && (forall|j: int|
            k < j < pairs.len() ==> #[trigger] pairs[j].0 != ts || stamp(pairs[j].1) is None)
            ==> gathered(pairs, ts, level, acc).ts == Some(stamp(pairs[k].1)->0 as i64),
        (forall|j: int|
            0 <= j < pairs.len() ==> #[trigger] pairs[j].0 != ts || stamp(pairs[j].1) is None)
            ==> gathered(pairs, ts, level, acc).ts == acc.ts,
        k >= 0 && pairs[k].0 == ts && stamp(pairs[k].1) is None ==> gathered(
            pairs,
            ts,
            level,
            acc,
        ).bad_ts,
        acc.bad_ts ==> gathered(pairs, ts, level, acc).bad_ts,
        (forall|j: int| 0 <= j < pairs.len() ==> #[trigger] pairs[j].0 != ts) ==> gathered(
            pairs,
            ts,
            level,
            acc,
        ).bad_ts == acc.bad_ts,
    decreases pairs.len(),
{
    if pairs.len() > 0 {
        let rest = pairs.skip(1);
        let (key, value) = pairs[0];
        let seen = acc.with_pair();
        let next = if key == ts {
            match value.text() {
                Some(t) => seen.with_ts(parse::rfc3339(text::enc(t))),
                None => seen.with_ts(None),
            }
        } else if key == level {
            seen.with_level(severity::rank_of(value.bytes()))
        } else {
            seen
        };
        assert forall|j: int| 0 <= j < rest.len() implies #[trigger] rest[j] == pairs[j + 1] by {}
        assert(forall|j: int| 0 < j < pairs.len() ==> #[trigger] pairs[j] == rest[j - 1]);
        if k > 0 {
            lemma_gathered_last(rest, ts, level, next, k - 1);
        } else {
            lemma_gathered_last(rest, ts, level, next, -1);
        }
    }
}

/// The instant that a value writes.
pub open spec fn stamp(t: Token) -> Option<int> {
    match t.text() {
        Some(s) => parse::rfc3339(text::enc(s)),
        None => None,
    }
}

/// The severity of a line is that of its last level; its time is that of its
/// last timestamp that parses. With none that parses it is malformed, with none
/// at all missing; a line without a pair is no record.
pub proof fn law_last_pair_counts(line: Seq<u8>, fields: Option<&FieldNames>, k: int)
    requires
        parse::ts_key(fields) != parse::level_key(fields),
    ensures
        ({
            let all = pairs(line);
            let ts = text::enc(parse::ts_key(fields));
            let level = text::enc(parse::level_key(fields));
            let r = reading(line, fields);
            &&& all.len() == 0 ==> r == (TsOutcome::Unparsed, severity::UNKNOWN)
            &&& 0 <= k < all.len() && all[k].0 == level && (forall|j: int|
                k < j < all.len() ==> #[trigger] all[j].0 != level) ==> r.1 == severity::rank_of(
                all[k].1.bytes(),
            )
            &&& (forall|j: int| 0 <= j < all.len() ==> #[trigger] all[j].0 != level) ==> r.1
                == severity::UNKNOWN
            &&& 0 <= k < all.len() && all[k].0 == ts && stamp(all[k].1) is Some && (forall|j: int|
                k < j < all.len() ==> #[trigger] all[j].0 != ts || stamp(all[j].1) is None) ==> r.0
                == TsOutcome::Timed(stamp(all[k].1)->0 as i64)
            &&& 0 <= k < all.len() && all[k].0 == ts && (forall|j: int|
                0 <= j < all.len() ==> #[trigger] all[j].0 != ts || stamp(all[j].1) is None) ==> r.0
                == TsOutcome::Malformed
            &&& all.len() > 0 && (forall|j: int| 0 <= j < all.len() ==> #[trigger] all[j].0 != ts)
                ==> r.0 == TsOutcome::Missing
        }),
{
    let all = pairs(line);
    let ts = text::enc(parse::ts_key(fields));
    let level = text::enc(parse::level_key(fields));
    text::lemma_encoding_injective(parse::ts_key(fields), parse::level_key(fields));
    if 0 <= k < all.len() {
        lemma_gathered_last(all, ts, level, parse::nothing_found(), k);
        assert(all[k].0 == ts || all[k].0 != ts);
    } else {
        lemma_gathered_last(all, ts, level, parse::nothing_found(), -1);
    }
}

proof fn lemma_lookup_first(pairs: Seq<Pair>, key: Seq<u8>, k: int)
    ensures
        0 <= k < pairs.len() && pairs[k].0 == key && (forall|j: int|
            0 <= j < k ==> #[trigger] pairs[j].0 != key) ==> lookup(pairs, key) == Some(pairs[k].1),
        (forall|j: int| 0 <= j < pairs.len() ==> #[trigger] pairs[j].0 != key) ==> lookup(pairs, key)
            is None,
    decreases pairs.len(),
{
    if pairs.len() > 0 {
        let rest = pairs.skip(1);
        assert forall|j: int| 0 <= j < rest.len() implies #[trigger] rest[j] == pairs[j + 1] by {}
        lemma_lookup_first(rest, key, k - 1);
        assert(pairs[0].0 == key || pairs[0].0 != key);
    }
}

/// A field is the text of the first pair with its key.
pub proof fn law_field_is_the_first_of_its_key(all: Seq<(Seq<u8>, Seq<char>)>, key: Seq<char>, k: int)
    requires
        forall|i: int| 0 <= i < all.len() ==> is_key(#[trigger] all[i].0),
        0 <= k < all.len(),
        all[k].0 == text::enc(key),
        forall|j: int| 0 <= j < k ==> #[trigger] all[j].0 != text::enc(key),
    ensures
        field(written(all), key) == Some(all[k].1),
{
    law_written_pairs_are_read(all);
    let ps = pairs(written(all));
    assert forall|j: int| 0 <= j < k implies #[trigger] ps[j].0 != text::enc(key) by {
        assert(ps[j].0 == all[j].0);
    }
    assert(ps[k].0 == all[k].0);
    lemma_lookup_first(ps, text::enc(key), k);
}

} // verus!
