//! EDN parser: Clojure-style `{:k v :k v}` records.
//!
//! Reference: <https://github.com/edn-format/edn>. Only the top-level map is
//! walked, to find `:ts` and `:level` and to project named fields.
//!
//! What's supported:
//! - Top-level map: `{ ... }` with no surrounding noise.
//! - Keys: `:keyword`, `:namespaced/keyword`, `"string"`.
//! - Values:
//!   - String literals `"..."` with `\"` / `\\` escapes.
//!   - Keywords `:foo`.
//!   - Numbers, passed through as text.
//!   - Tagged literals `#inst "..."`, `#uuid "..."`: the tag's argument is the
//!     value.
//!   - Nested maps `{...}` / vectors `[...]` / lists `(...)` are skipped
//!     without parsing their interior.

use vstd::prelude::*;

use crate::scan;
use crate::scan::ByteClass;
use crate::engine::parse;
use crate::engine::parse::{FieldNames, Found, ParseStats, TsOutcome};
use crate::engine::quoted;
use crate::engine::quoted::{QuotedText, Token};
use crate::engine::record::severity;
use crate::text;

verus! {

/// One element of a map, with its sigils, quotes and tags taken off.
pub enum Element {
    Keyword(Seq<u8>),
    Text(Token),
    Bare(Seq<u8>),
    Nested,
}

impl Element {
    pub open spec fn bytes(self) -> Seq<u8> {
        match self {
            Element::Keyword(b) => b,
            Element::Text(t) => t.bytes(),
            Element::Bare(b) => b,
            Element::Nested => Seq::empty(),
        }
    }

    pub open spec fn text(self) -> Option<Seq<char>> {
        match self {
            Element::Keyword(b) => text::decoded(b),
            Element::Text(t) => t.text(),
            Element::Bare(b) => text::decoded(b),
            Element::Nested => None,
        }
    }

    /// The severity that this element names as a level.
    pub open spec fn rank(self) -> u8 {
        match self {
            Element::Nested => severity::UNKNOWN,
            _ => severity::rank_of(self.bytes()),
        }
    }

    /// As a key, this element names the field `name`: a keyword or an
    /// escape-free string whose part behind the last `/` is `name`.
    pub open spec fn names(self, name: Seq<char>) -> bool {
        match self {
            Element::Keyword(b) => local_name_is(b, name),
            Element::Text(t) => !t.escaped && local_name_is(t.body, name),
            _ => false,
        }
    }
}

/// `b` is text whose part behind the last `/` is `name`.
pub open spec fn local_name_is(b: Seq<u8>, name: Seq<char>) -> bool {
    &&& vstd::utf8::valid_utf8(b)
    &&& b.subrange(
        scan::run_start(b, 0, b.len() as int, ByteClass::Except('/' as u8)),
        b.len() as int,
    ) == text::enc(name)
}

/// Where a bracketed form ends, scanning from `i` at nesting `depth`. Only
/// brackets of the form's own kind nest, and none inside a string counts.
pub open spec fn balanced_end(
    s: Seq<u8>,
    i: int,
    open: u8,
    close: u8,
    depth: nat,
    in_string: bool,
    escape: bool,
) -> int
    decreases s.len() - i,
{
    if !(0 <= i < s.len()) || depth == 0 {
        i
    } else if in_string {
        balanced_end(
            s,
            i + 1,
            open,
            close,
            depth,
            escape || s[i] != '"' as u8,
            !escape && s[i] == '\\' as u8,
        )
    } else if s[i] == '"' as u8 {
        balanced_end(s, i + 1, open, close, depth, true, escape)
    } else if s[i] == open {
        balanced_end(s, i + 1, open, close, depth + 1, false, escape)
    } else if s[i] == close {
        balanced_end(s, i + 1, open, close, (depth - 1) as nat, false, escape)
    } else {
        balanced_end(s, i + 1, open, close, depth, false, escape)
    }
}

proof fn lemma_balanced_end(
    s: Seq<u8>,
    i: int,
    open: u8,
    close: u8,
    depth: nat,
    in_string: bool,
    escape: bool,
)
    requires
        0 <= i <= s.len(),
    ensures
        i <= balanced_end(s, i, open, close, depth, in_string, escape) <= s.len(),
    decreases s.len() - i,
{
    if i < s.len() && depth > 0 {
        if in_string {
            lemma_balanced_end(
                s,
                i + 1,
                open,
                close,
                depth,
                escape || s[i] != '"' as u8,
                !escape && s[i] == '\\' as u8,
            );
        } else if s[i] == '"' as u8 {
            lemma_balanced_end(s, i + 1, open, close, depth, true, escape);
        } else if s[i] == open {
            lemma_balanced_end(s, i + 1, open, close, depth + 1, false, escape);
        } else if s[i] == close {
            lemma_balanced_end(s, i + 1, open, close, (depth - 1) as nat, false, escape);
        } else {
            lemma_balanced_end(s, i + 1, open, close, depth, false, escape);
        }
    }
}

/// The bracket that closes an opening one.
pub open spec fn closer(open: u8) -> u8 {
    if open == '{' as u8 {
        '}' as u8
    } else if open == '[' as u8 {
        ']' as u8
    } else {
        ')' as u8
    }
}

pub open spec fn is_opener(b: u8) -> bool {
    b == '{' as u8 || b == '[' as u8 || b == '(' as u8
}

pub open spec fn is_closer(b: u8) -> bool {
    b == '}' as u8 || b == ']' as u8 || b == ')' as u8
}

/// The element that starts at or behind `from`, with the index behind it;
/// nothing at the end of the line or before a closing bracket.
pub open spec fn element(s: Seq<u8>, from: int) -> Option<(Element, int)>
    decreases s.len() - from,
{
    let i = scan::run_end(s, from, ByteClass::EdnGap);
    if !(0 <= from <= i < s.len()) {
        None
    } else if s[i] == ':' as u8 {
        let e = scan::run_end(s, i + 1, ByteClass::EdnToken);
        Some((Element::Keyword(s.subrange(i + 1, e)), e))
    } else if s[i] == '"' as u8 {
        let q = quoted::quoted(s, i + 1);
        Some((Element::Text(q.token()), q.end))
    } else if s[i] == '#' as u8 {
        let e = scan::run_end(s, i + 1, ByteClass::EdnToken);
        if i < e <= s.len() {
            element(s, e)
        } else {
            None
        }
    } else if is_opener(s[i]) {
        Some((Element::Nested, balanced_end(s, i + 1, s[i], closer(s[i]), 1, false, false)))
    } else if is_closer(s[i]) {
        None
    } else {
        let e = scan::run_end(s, i, ByteClass::EdnToken);
        Some((Element::Bare(s.subrange(i, e)), e))
    }
}

/// An element takes up at least one byte and ends inside the line.
pub proof fn lemma_element(s: Seq<u8>, from: int)
    requires
        0 <= from <= s.len(),
    ensures
        element(s, from) matches Some((e, end)) ==> from < end <= s.len(),
    decreases s.len() - from,
{
    scan::lemma_run_end(s, from, ByteClass::EdnGap);
    let i = scan::run_end(s, from, ByteClass::EdnGap);
    if i < s.len() {
        scan::lemma_run_end(s, i + 1, ByteClass::EdnToken);
        if s[i] == '"' as u8 {
            quoted::lemma_quoted_end(s, i + 1);
        } else if s[i] == '#' as u8 {
            lemma_element(s, scan::run_end(s, i + 1, ByteClass::EdnToken));
        } else if is_opener(s[i]) {
            lemma_balanced_end(s, i + 1, s[i], closer(s[i]), 1, false, false);
        } else {
            scan::lemma_run_end(s, i, ByteClass::EdnToken);
        }
    }
}

/// The pairs of a map from index `from` on, up to its closing brace or to the
/// first pair that is not complete.
pub open spec fn pairs_from(s: Seq<u8>, from: int) -> Seq<(Element, Element)>
    decreases s.len() - from,
{
    let i = scan::run_end(s, from, ByteClass::EdnGap);
    if !(0 <= from <= i < s.len()) || s[i] == '}' as u8 {
        Seq::empty()
    } else {
        match element(s, i) {
            None => Seq::empty(),
            Some((key, mid)) => match element(s, mid) {
                None => Seq::empty(),
                Some((value, end)) => if from < end <= s.len() {
                    seq![(key, value)] + pairs_from(s, end)
                } else {
                    Seq::empty()
                },
            },
        }
    }
}

/// The pairs of the map that opens a line.
pub open spec fn pairs(s: Seq<u8>) -> Seq<(Element, Element)> {
    let i = scan::run_end(s, 0, ByteClass::EdnGap);
    if i < s.len() && s[i] == '{' as u8 {
        pairs_from(s, i + 1)
    } else {
        Seq::empty()
    }
}

/// One element extracted from EDN. Strings come out unwrapped; tagged
/// literals delegate to whatever they wrap.
#[derive(Debug)]
pub enum EdnValue<'a> {
    Keyword(&'a [u8]),
    String(&'a [u8]),
    OwnedString(String),
    Bare(&'a [u8]),
    Nested,
}

impl<'a> EdnValue<'a> {
    /// The value is what the scanner read as `e`.
    pub open spec fn is_element(self, e: Element) -> bool {
        match self {
            EdnValue::Keyword(b) => e matches Element::Keyword(x) && x == b@,
            EdnValue::String(b) => e matches Element::Text(t) && !t.escaped && t.body == b@,
            EdnValue::OwnedString(s) => e matches Element::Text(t) && t.escaped
                && text::lossy(t.body) == s@,
            EdnValue::Bare(b) => e matches Element::Bare(x) && x == b@,
            EdnValue::Nested => e is Nested,
        }
    }

    pub fn as_bytes(&self) -> (r: &[u8])
        ensures
            forall|e: Element| self.is_element(e) ==> r@ == #[trigger] e.bytes(),
            match *self {
                EdnValue::Keyword(b) => r@ == b@,
                EdnValue::String(b) => r@ == b@,
                EdnValue::OwnedString(s) => r@ == text::enc(s@),
                EdnValue::Bare(b) => r@ == b@,
                EdnValue::Nested => r@.len() == 0,
            },
    {
        match self {
            EdnValue::Keyword(b) => b,
            EdnValue::String(b) => b,
            EdnValue::Bare(b) => b,
            EdnValue::OwnedString(s) => s.as_str().as_bytes(),
            EdnValue::Nested => {
                let none: &[u8] = &[];
                assert(none@ =~= Seq::empty());
                none
            },
        }
    }

    pub fn as_str(&self) -> (r: Option<&str>)
        ensures
            forall|e: Element|
                self.is_element(e) ==> match #[trigger] e.text() {
                    Some(t) => r matches Some(x) && x@ == t,
                    None => r is None,
                },
            match *self {
                EdnValue::Keyword(b) => (r is Some <==> text::decoded(b@) is Some) && (r matches Some(
                    x,
                ) ==> Some(x@) == text::decoded(b@)),
                EdnValue::String(b) => (r is Some <==> text::decoded(b@) is Some) && (r matches Some(
                    x,
                ) ==> Some(x@) == text::decoded(b@)),
                EdnValue::OwnedString(s) => r matches Some(x) && x@ == s@,
                EdnValue::Bare(b) => (r is Some <==> text::decoded(b@) is Some) && (r matches Some(
                    x,
                ) ==> Some(x@) == text::decoded(b@)),
                EdnValue::Nested => r is None,
            },
    {
        match self {
            EdnValue::Keyword(b) => text::from_utf8(b),
            EdnValue::String(b) => text::from_utf8(b),
            EdnValue::Bare(b) => text::from_utf8(b),
            EdnValue::OwnedString(s) => Some(s.as_str()),
            EdnValue::Nested => None,
        }
    }
}

/// Scan over the top-level key/value pairs of an EDN map.
pub struct EdnPairs<'a> {
    line: &'a [u8],
    at: usize,
    /// The outer `{` has been entered.
    started: bool,
    finished: bool,
}

impl<'a> EdnPairs<'a> {
    pub closed spec fn wf(self) -> bool {
        self.at <= self.line@.len() && (!self.started ==> self.at == 0)
    }

    /// The pairs still to come.
    pub closed spec fn remaining(self) -> Seq<(Element, Element)> {
        if self.finished {
            Seq::empty()
        } else if self.started {
            pairs_from(self.line@, self.at as int)
        } else {
            pairs(self.line@)
        }
    }

    /// Bytes not yet scanned.
    pub closed spec fn left(self) -> nat {
        (self.line@.len() - self.at) as nat
    }

    pub fn new(line: &'a [u8]) -> (r: Self)
        ensures
            r.wf(),
            r.remaining() == pairs(line@),
    {
        EdnPairs { line, at: 0, started: false, finished: false }
    }

    pub fn next(&mut self) -> (r: Option<(EdnValue<'a>, EdnValue<'a>)>)
        requires
            old(self).wf(),
        ensures
            final(self).wf(),
            match r {
                Some((key, value)) => {
                    &&& old(self).remaining().len() > 0
                    &&& key.is_element(old(self).remaining()[0].0)
                    &&& value.is_element(old(self).remaining()[0].1)
                    &&& final(self).remaining() == old(self).remaining().skip(1)
                    &&& final(self).left() < old(self).left()
                },
                None => old(self).remaining().len() == 0 && final(self).remaining().len() == 0,
            },
    {
        if self.finished {
            return None;
        }
        let line: &'a [u8] = self.line;
        if !self.started {
            let open: usize = scan::skip(line, 0, ByteClass::EdnGap);
            if open >= line.len() || line[open] != '{' as u8 {
                self.finished = true;
                return None;
            }
            self.at = open + 1;
            self.started = true;
        }
        let ghost from = self.at as int;
        let ghost all = pairs_from(line@, from);
        assert(all == old(self).remaining());
        let start: usize = scan::skip(line, self.at, ByteClass::EdnGap);
        if start >= line.len() || line[start] == '}' as u8 {
            self.finished = true;
            return None;
        }
        proof {
            lemma_element(line@, start as int);
        }
        let (key, mid) = match read_element(line, start) {
            Some(x) => x,
            None => {
                self.finished = true;
                return None;
            },
        };
        proof {
            lemma_element(line@, mid as int);
        }
        let (value, end) = match read_element(line, mid) {
            Some(x) => x,
            None => {
                self.finished = true;
                return None;
            },
        };
        proof {
            let rest = pairs_from(line@, end as int);
            let k = element(line@, start as int)->0;
            let v = element(line@, mid as int)->0;
            assert(all == seq![(k.0, v.0)] + rest);
            assert(all.skip(1) =~= rest);
        }
        self.at = end;
        Some((key, value))
    }
}

/// Read one element at or behind `from`.
fn read_element<'a>(line: &'a [u8], from: usize) -> (r: Option<(EdnValue<'a>, usize)>)
    requires
        from <= line@.len(),
    ensures
        match r {
            Some((v, end)) => {
                &&& element(line@, from as int) matches Some((e, x)) && x == end && v.is_element(e)
                &&& from < end <= line@.len()
            },
            None => element(line@, from as int) is None,
        },
{
    let mut at: usize = from;
    loop
        invariant
            from <= at <= line@.len(),
            element(line@, at as int) == element(line@, from as int),
        decreases line@.len() - at,
    {
        proof {
            lemma_element(line@, from as int);
            scan::lemma_run_end(line@, at as int, ByteClass::EdnGap);
        }
        let i: usize = scan::skip(line, at, ByteClass::EdnGap);
        if i >= line.len() {
            return None;
        }
        let first: u8 = line[i];
        if first == ':' as u8 {
            let e: usize = scan::skip(line, i + 1, ByteClass::EdnToken);
            return Some((EdnValue::Keyword(&line[i + 1..e]), e));
        }
        if first == '"' as u8 {
            let (value, end) = quoted::scan_quoted(line, i + 1);
            return match value {
                QuotedText::Raw(b) => Some((EdnValue::String(b), end)),
                QuotedText::Unescaped(s) => Some((EdnValue::OwnedString(s), end)),
            };
        }
        if first == '#' as u8 {
            at = scan::skip(line, i + 1, ByteClass::EdnToken);
        } else if first == '{' as u8 {
            return Some((EdnValue::Nested, skip_balanced(line, i + 1, '{' as u8, '}' as u8)));
        } else if first == '[' as u8 {
            return Some((EdnValue::Nested, skip_balanced(line, i + 1, '[' as u8, ']' as u8)));
        } else if first == '(' as u8 {
            return Some((EdnValue::Nested, skip_balanced(line, i + 1, '(' as u8, ')' as u8)));
        } else if first == '}' as u8 || first == ']' as u8 || first == ')' as u8 {
            return None;
        } else {
            let e: usize = scan::skip(line, i, ByteClass::EdnToken);
            return Some((EdnValue::Bare(&line[i..e]), e));
        }
    }
}

/// Skip over a delimited form (e.g. `{...}` or `[...]`) whose opening byte
/// stands just before `from`.
fn skip_balanced(line: &[u8], from: usize, open: u8, close: u8) -> (r: usize)
    requires
        1 <= from <= line@.len(),
        open != close,
        open != '"' as u8,
        close != '"' as u8,
    ensures
        r == balanced_end(line@, from as int, open, close, 1, false, false),
{
    let mut i: usize = from;
    let mut depth: usize = 1;
    let mut in_string: bool = false;
    let mut escape: bool = false;
    while i < line.len() && depth > 0
        invariant
            1 <= from <= i <= line@.len(),
            depth <= 1 + i - from,
            open != close,
            balanced_end(line@, from as int, open, close, 1, false, false) == balanced_end(
                line@,
                i as int,
                open,
                close,
                depth as nat,
                in_string,
                escape,
            ),
        decreases line@.len() - i,
    {
        let b: u8 = line[i];
        if in_string {
            if escape {
                escape = false;
            } else if b == '\\' as u8 {
                escape = true;
            } else if b == '"' as u8 {
                in_string = false;
            }
        } else if b == '"' as u8 {
            in_string = true;
        } else if b == open {
            depth = depth + 1;
        } else if b == close {
            depth = depth - 1;
        }
        i = i + 1;
    }
    i
}

/// Match a key against an expected field name. Strips the keyword sigil and
/// any namespace before comparing: both `:ts` and `:log/ts` match `ts`, and so
/// does the string key `"ts"`.
fn key_matches(key: &EdnValue, expected: &str) -> (r: bool)
    ensures
        forall|e: Element| key.is_element(e) ==> r == #[trigger] e.names(expected@),
{
    let b: &[u8] = match key {
        EdnValue::Keyword(b) => b,
        EdnValue::String(b) => b,
        _ => {
            return false;
        },
    };
    if text::from_utf8(b).is_none() {
        return false;
    }
    let mut at: usize = b.len();
    while at > 0 && b[at - 1] != '/' as u8
        invariant
            at <= b@.len(),
            scan::run_start(b@, 0, b@.len() as int, ByteClass::Except('/' as u8))
                == scan::run_start(b@, 0, at as int, ByteClass::Except('/' as u8)),
        decreases at,
    {
        at = at - 1;
    }
    scan::bytes_eq(&b[at..b.len()], expected.as_bytes())
}

/// What a map's pairs say of its timestamp and level. A later pair with the
/// same key overrides an earlier one, but a timestamp that does not parse
/// never displaces one that does.
pub open spec fn gathered(
    pairs: Seq<(Element, Element)>,
    ts: Seq<char>,
    level: Seq<char>,
    acc: Found,
) -> Found
    decreases pairs.len(),
{
    if pairs.len() == 0 {
        acc
    } else {
        let (key, value) = pairs[0];
        let seen = acc.with_pair();
        gathered(
            pairs.skip(1),
            ts,
            level,
            if key.names(ts) {
                match value.text() {
                    Some(t) => seen.with_ts(parse::rfc3339(text::enc(t))),
                    None => seen,
                }
            } else if key.names(level) {
                seen.with_level(value.rank())
            } else {
                seen
            },
        )
    }
}

/// The outcome and severity of an EDN line.
pub open spec fn reading(line: Seq<u8>, fields: Option<&FieldNames>) -> (TsOutcome, u8) {
    gathered(
        pairs(line),
        parse::ts_key(fields),
        parse::level_key(fields),
        parse::nothing_found(),
    ).reading()
}

/// Walk the map once, extract ts and level.
pub fn ts_and_level(line: &[u8], stats: &mut ParseStats, fields: Option<&FieldNames>) -> (r: (
    i64,
    u8,
))
    requires
        old(stats).has_room(),
    ensures
        r.0 == reading(line@, fields).0.micros(),
        r.1 == reading(line@, fields).1,
        *final(stats) == old(stats).counting(reading(line@, fields).0),
{
    let ts_key: &str = parse::ts_key_of(fields);
    let level_key: &str = parse::level_key_of(fields);
    let mut found: Found = Found::none();
    let mut scan: EdnPairs = EdnPairs::new(line);
    let ghost whole = gathered(pairs(line@), ts_key@, level_key@, found);
    loop
        invariant
            scan.wf(),
            gathered(scan.remaining(), ts_key@, level_key@, found) == whole,
        ensures
            found == whole,
        decreases scan.left(),
    {
        let ghost before = scan.remaining();
        match scan.next() {
            None => {
                break;
            },
            Some((key, value)) => {
                let ghost e = before[0].1;
                assert(before[0].0.names(ts_key@) || !before[0].0.names(ts_key@));
                found = found.see_pair();
                if key_matches(&key, ts_key) {
                    let shown: Option<&str> = value.as_str();
                    assert(e.text() is Some || e.text() is None);
                    match shown {
                        Some(s) => {
                            let t: Option<i64> = parse::parse_rfc3339_micros(s);
                            found = found.see_ts(t);
                        },
                        None => {},
                    }
                } else if key_matches(&key, level_key) {
                    let rank: u8 = match &value {
                        EdnValue::Nested => severity::UNKNOWN,
                        _ => severity::from_bytes(value.as_bytes()),
                    };
                    assert(e.bytes() == e.bytes());
                    found = found.see_level(rank);
                }
            },
        }
    }
    let (outcome, sev) = found.outcome();
    (stats.count(outcome), sev)
}

/// The value of the first pair whose key names the field.
pub open spec fn lookup(pairs: Seq<(Element, Element)>, key: Seq<char>) -> Option<Element>
    decreases pairs.len(),
{
    if pairs.len() == 0 {
        None
    } else if pairs[0].0.names(key) {
        Some(pairs[0].1)
    } else {
        lookup(pairs.skip(1), key)
    }
}

/// The text of a field: that of the first pair whose key names it.
pub open spec fn field(line: Seq<u8>, key: Seq<char>) -> Option<Seq<char>> {
    match lookup(pairs(line), key) {
        Some(e) => e.text(),
        None => None,
    }
}

/// Look up a single field by name, if its value is text.
pub fn project_field(line: &[u8], key: &str) -> (r: Option<String>)
    ensures
        text::opt_view(r) == field(line@, key@),
{
    let mut scan: EdnPairs = EdnPairs::new(line);
    loop
        invariant
            scan.wf(),
            lookup(scan.remaining(), key@) == lookup(pairs(line@), key@),
        ensures
            lookup(pairs(line@), key@) is None,
        decreases scan.left(),
    {
        let ghost before = scan.remaining();
        match scan.next() {
            None => {
                break;
            },
            Some((k, v)) => {
                assert(before[0].0.names(key@) || !before[0].0.names(key@));
                if key_matches(&k, key) {
                    assert(before[0].1.text() is Some || before[0].1.text() is None);
                    return match v.as_str() {
                        Some(s) => Some(s.to_owned()),
                        None => None,
                    };
                }
            },
        }
    }
    None
}

proof fn lemma_gathered_sound(
    pairs: Seq<(Element, Element)>,
    ts: Seq<char>,
    level: Seq<char>,
    acc: Found,
)
    requires
        acc.is_sound(),
    ensures
        gathered(pairs, ts, level, acc).is_sound(),
    decreases pairs.len(),
{
    if pairs.len() > 0 {
        let (key, value) = pairs[0];
        let seen = acc.with_pair();
        if let Some(t) = value.text() {
            parse::lemma_rfc3339_range(text::enc(t));
        }
        lemma_gathered_sound(
            pairs.skip(1),
            ts,
            level,
            if key.names(ts) {
                match value.text() {
                    Some(t) => seen.with_ts(parse::rfc3339(text::enc(t))),
                    None => seen,
                }
            } else if key.names(level) {
                seen.with_level(value.rank())
            } else {
                seen
            },
        );
    }
}

/// A reading's severity is a rank, and a time in it is no mark of an untimed
/// record.
pub proof fn lemma_reading_sound(line: Seq<u8>, fields: Option<&FieldNames>)
    ensures
        parse::is_sound(reading(line, fields)),
{
    lemma_gathered_sound(
        pairs(line),
        parse::ts_key(fields),
        parse::level_key(fields),
        parse::nothing_found(),
    );
}

/// The instant that a value writes.
pub open spec fn stamp(e: Element) -> Option<int> {
    match e.text() {
        Some(s) => parse::rfc3339(text::enc(s)),
        None => None,
    }
}

/// A key names at most one field.
proof fn lemma_names_one(e: Element, a: Seq<char>, b: Seq<char>)
    requires
        e.names(a),
        e.names(b),
    ensures
        a == b,
{
    text::lemma_encoding_injective(a, b);
}

proof fn lemma_gathered_last(
    pairs: Seq<(Element, Element)>,
    ts: Seq<char>,
    level: Seq<char>,
    acc: Found,
    k: int,
)
    requires
        ts != level,
        -1 <= k < pairs.len(),
    ensures
        pairs.len() > 0 ==> gathered(pairs, ts, level, acc).any,
        k >= 0 && pairs[k].0.names(level) && (forall|j: int|
            k < j < pairs.len() ==> !(#[trigger] pairs[j]).0.names(level)) ==> gathered(
            pairs,
            ts,
            level,
            acc,
        ).level == pairs[k].1.rank(),
        (forall|j: int| 0 <= j < pairs.len() ==> !(#[trigger] pairs[j]).0.names(level)) ==> gathered(
            pairs,
            ts,
            level,
            acc,
        ).level == acc.level,
        k >= 0 && pairs[k].0.names(ts) && stamp(pairs[k].1) is Some && (forall|j: int|
            k < j < pairs.len() ==> !(#[trigger] pairs[j]).0.names(ts) || stamp(pairs[j].1) is None)
            ==> gathered(pairs, ts, level, acc).ts == Some(stamp(pairs[k].1)->0 as i64),
        (forall|j: int|
            0 <= j < pairs.len() ==> !(#[trigger] pairs[j]).0.names(ts) || stamp(pairs[j].1) is None)
            ==> gathered(pairs, ts, level, acc).ts == acc.ts,
        k >= 0 && pairs[k].0.names(ts) && pairs[k].1.text() is Some && stamp(pairs[k].1) is None
            ==> gathered(pairs, ts, level, acc).bad_ts,
        acc.bad_ts ==> gathered(pairs, ts, level, acc).bad_ts,
        (forall|j: int| 0 <= j < pairs.len() ==> !(#[trigger] pairs[j]).0.names(ts)) ==> gathered(
            pairs,
            ts,
            level,
            acc,
        ).bad_ts == acc.bad_ts,
    decreases pairs.len(),
{
    if pairs.len() > 0 {
        let rest = pairs.skip(1);
        let (key, value) = pairs[0];
        let seen = acc.with_pair();
        let next = if key.names(ts) {
            match value.text() {
                Some(t) => seen.with_ts(parse::rfc3339(text::enc(t))),
                None => seen,
            }
        } else if key.names(level) {
            seen.with_level(value.rank())
        } else {
            seen
        };
        if key.names(ts) && key.names(level) {
            lemma_names_one(key, ts, level);
        }
        assert forall|j: int| 0 <= j < rest.len() implies #[trigger] rest[j] == pairs[j + 1] by {}
        assert(forall|j: int| 0 < j < pairs.len() ==> #[trigger] pairs[j] == rest[j - 1]);
        if k > 0 {
            lemma_gathered_last(rest, ts, level, next, k - 1);
        } else {
            lemma_gathered_last(rest, ts, level, next, -1);
        }
    }
}

/// The severity of a map is that of its last level; its time is that of its
/// last timestamp that parses. With a text that does not parse and none that
/// does it is malformed, with none at all missing; a line without a pair is no
/// record.
pub proof fn law_last_pair_counts(line: Seq<u8>, fields: Option<&FieldNames>, k: int)
    requires
        parse::ts_key(fields) != parse::level_key(fields),
    ensures
        ({
            let all = pairs(line);
            let ts = parse::ts_key(fields);
            let level = parse::level_key(fields);
            let r = reading(line, fields);
            &&& all.len() == 0 ==> r == (TsOutcome::Unparsed, severity::UNKNOWN)
            &&& 0 <= k < all.len() && all[k].0.names(level) && (forall|j: int|
                k < j < all.len() ==> !(#[trigger] all[j]).0.names(level)) ==> r.1 == (match all[k].1 {
                Element::Nested => severity::UNKNOWN,
                e => severity::rank_of(e.bytes()),
            })
            &&& (forall|j: int| 0 <= j < all.len() ==> !(#[trigger] all[j]).0.names(level)) ==> r.1
                == severity::UNKNOWN
            &&& 0 <= k < all.len() && all[k].0.names(ts) && stamp(all[k].1) is Some && (forall|j: int|
                k < j < all.len() ==> !(#[trigger] all[j]).0.names(ts) || stamp(all[j].1) is None)
                ==> r.0 == TsOutcome::Timed(stamp(all[k].1)->0 as i64)
            &&& 0 <= k < all.len() && all[k].0.names(ts) && all[k].1.text() is Some && (forall|j: int|
                0 <= j < all.len() ==> !(#[trigger] all[j]).0.names(ts) || stamp(all[j].1) is None)
                ==> r.0 == TsOutcome::Malformed
            &&& all.len() > 0 && (forall|j: int|
                0 <= j < all.len() ==> !(#[trigger] all[j]).0.names(ts)) ==> r.0
                == TsOutcome::Missing
        }),
{
    let all = pairs(line);
    if 0 <= k < all.len() {
        lemma_gathered_last(
            all,
            parse::ts_key(fields),
            parse::level_key(fields),
            parse::nothing_found(),
            k,
        );
        assert(all[k] == all[k]);
    } else {
        lemma_gathered_last(
            all,
            parse::ts_key(fields),
            parse::level_key(fields),
            parse::nothing_found(),
            -1,
        );
    }
}

/// A key that a map can be written with: a token without a slash.
pub open spec fn is_key(k: Seq<u8>) -> bool {
    forall|i: int|
        0 <= i < k.len() ==> ByteClass::EdnToken.has(#[trigger] k[i]) && k[i] != '/' as u8
}

/// `:key "value" `, the value with its escapes.
pub open spec fn written_pair(key: Seq<char>, value: Seq<char>) -> Seq<u8> {
    seq![':' as u8] + (text::enc(key) + (seq![' ' as u8, '"' as u8] + ((quoted::escaped(
        text::enc(value),
    ) + seq!['"' as u8]) + seq![' ' as u8])))
}

/// Pairs one behind the other.
pub open spec fn written_pairs(all: Seq<(Seq<char>, Seq<char>)>) -> Seq<u8>
    decreases all.len(),
{
    if all.len() == 0 {
        Seq::empty()
    } else {
        written_pair(all[0].0, all[0].1) + written_pairs(all.skip(1))
    }
}

/// A map written from its pairs.
pub open spec fn written_map(all: Seq<(Seq<char>, Seq<char>)>) -> Seq<u8> {
    seq!['{' as u8] + (written_pairs(all) + seq!['}' as u8])
}

/// The pair as it is read back.
pub open spec fn read_back(key: Seq<char>, value: Seq<char>) -> (Element, Element) {
    (
        Element::Keyword(text::enc(key)),
        Element::Text(
            Token { body: text::enc(value), escaped: quoted::needs_escape(text::enc(value)) },
        ),
    )
}

proof fn lemma_pair_is_read(s: Seq<u8>, i: int, key: Seq<char>, value: Seq<char>)
    requires
        is_key(text::enc(key)),
        scan::stands(s, i, written_pair(key, value)),
    ensures
        0 <= i < s.len(),
        s[i] == ':' as u8,
        scan::run_end(s, i, ByteClass::EdnGap) == i,
        element(s, i) == Some((read_back(key, value).0, i + 1 + text::enc(key).len())),
        element(s, i + 1 + text::enc(key).len()) == Some(
            (read_back(key, value).1, i + written_pair(key, value).len() - 1),
        ),
        i + written_pair(key, value).len() <= s.len(),
        s[i + written_pair(key, value).len() - 1] == ' ' as u8,
{
    let (k, v) = (text::enc(key), text::enc(value));
    let colon = seq![':' as u8];
    let open = seq![' ' as u8, '"' as u8];
    let body = quoted::escaped(v) + seq!['"' as u8];
    let sp = seq![' ' as u8];
    scan::lemma_halves(s, i, colon, k + (open + (body + sp)));
    scan::lemma_stands_byte(s, i, colon, 0);
    scan::lemma_halves(s, i + 1, k, open + (body + sp));
    let e: int = i + 1 + k.len();
    scan::lemma_halves(s, e, open, body + sp);
    scan::lemma_stands_byte(s, e, open, 0);
    scan::lemma_stands_byte(s, e, open, 1);
    scan::lemma_halves(s, e + 2, body, sp);
    scan::lemma_stands_byte(s, e + 2 + body.len(), sp, 0);
    scan::lemma_run_end_at(s, i, i, ByteClass::EdnGap);
    scan::lemma_stands_run(s, i + 1, k, ByteClass::EdnToken);
    scan::lemma_stands_subrange(s, i + 1, k);
    scan::lemma_run_end_at(s, e, e + 1, ByteClass::EdnGap);
    quoted::lemma_written_is_read(s, e + 2, v);
}

proof fn lemma_pairs_are_read(s: Seq<u8>, from: int, i: int, all: Seq<(Seq<char>, Seq<char>)>)
    requires
        0 <= from <= i,
        forall|k: int| from <= k < i ==> ByteClass::EdnGap.has(#[trigger] s[k]),
        forall|k: int| 0 <= k < all.len() ==> is_key(text::enc((#[trigger] all[k]).0)),
        scan::stands(s, i, written_pairs(all) + seq!['}' as u8]),
    ensures
        pairs_from(s, from) =~= Seq::new(all.len(), |k: int| read_back(all[k].0, all[k].1)),
    decreases all.len(),
{
    let close = seq!['}' as u8];
    if all.len() == 0 {
        assert(written_pairs(all) + close =~= close);
        scan::lemma_stands_byte(s, i, close, 0);
        scan::lemma_run_end_at(s, from, i, ByteClass::EdnGap);
    } else {
        let one = written_pair(all[0].0, all[0].1);
        let more = all.skip(1);
        assert(written_pairs(all) + close =~= one + (written_pairs(more) + close));
        scan::lemma_halves(s, i, one, written_pairs(more) + close);
        assert(is_key(text::enc(all[0].0)));
        lemma_pair_is_read(s, i, all[0].0, all[0].1);
        scan::lemma_run_end_at(s, from, i, ByteClass::EdnGap);
        let end: int = i + one.len();
        assert forall|k: int| 0 <= k < more.len() implies is_key(text::enc((#[trigger] more[k]).0)) by {
            assert(more[k] == all[k + 1]);
        }
        lemma_pairs_are_read(s, end - 1, end, more);
    }
}

/// Pairs that are written to a map are read from it: the same keys and the same
/// texts, in order, whatever quotes, backslashes and brackets the values hold.
/// A field is the text of the first pair with its key.
pub proof fn law_written_map_is_read(all: Seq<(Seq<char>, Seq<char>)>, k: int)
    requires
        forall|i: int| 0 <= i < all.len() ==> is_key(text::enc((#[trigger] all[i]).0)),
        0 <= k < all.len(),
    ensures
        pairs(written_map(all)).len() == all.len(),
        pairs(written_map(all))[k].0.names(all[k].0),
        pairs(written_map(all))[k].1.text() == Some(all[k].1),
        pairs(written_map(all))[k].1.bytes() == text::enc(all[k].1),
        (forall|j: int| 0 <= j < k ==> (#[trigger] all[j]).0 != all[k].0) ==> field(
            written_map(all),
            all[k].0,
        ) == Some(all[k].1),
{
    let s = written_map(all);
    let open = seq!['{' as u8];
    scan::lemma_whole(s);
    scan::lemma_halves(s, 0, open, written_pairs(all) + seq!['}' as u8]);
    scan::lemma_stands_byte(s, 0, open, 0);
    scan::lemma_run_end_at(s, 0, 0, ByteClass::EdnGap);
    lemma_pairs_are_read(s, 1, 1, all);
    let ps = pairs(s);
    assert(ps[k] == read_back(all[k].0, all[k].1));
    assert(is_key(text::enc(all[k].0)));
    text::lemma_lossy_of_text(all[k].1);
    law_namespace_does_not_matter(Seq::empty(), all[k].0, all[k].0);
    assert(Seq::<u8>::empty() + text::enc(all[k].0) =~= text::enc(all[k].0));
    if forall|j: int| 0 <= j < k ==> (#[trigger] all[j]).0 != all[k].0 {
        assert forall|j: int| 0 <= j < k implies !(#[trigger] ps[j]).0.names(all[k].0) by {
            assert(ps[j] == read_back(all[j].0, all[j].1));
            assert(is_key(text::enc(all[j].0)));
            assert(all[j].0 != all[k].0);
            law_namespace_does_not_matter(Seq::empty(), all[j].0, all[k].0);
            assert(Seq::<u8>::empty() + text::enc(all[j].0) =~= text::enc(all[j].0));
        }
        lemma_lookup_first(ps, all[k].0, k);
    }
}

proof fn lemma_lookup_first(pairs: Seq<(Element, Element)>, key: Seq<char>, k: int)
    requires
        0 <= k < pairs.len(),
        pairs[k].0.names(key),
        forall|j: int| 0 <= j < k ==> !(#[trigger] pairs[j]).0.names(key),
    ensures
        lookup(pairs, key) == Some(pairs[k].1),
    decreases pairs.len(),
{
    if k > 0 {
        let rest = pairs.skip(1);
        assert(!pairs[0].0.names(key));
        assert forall|j: int| 0 <= j < k - 1 implies !(#[trigger] rest[j]).0.names(key) by {
            assert(rest[j] == pairs[j + 1]);
        }
        lemma_lookup_first(rest, key, k - 1);
    }
}

/// A keyword names the field that stands behind its last slash, with any
/// namespace before it or none.
pub proof fn law_namespace_does_not_matter(space: Seq<u8>, name: Seq<char>, asked: Seq<char>)
    requires
        forall|i: int| 0 <= i < text::enc(name).len() ==> #[trigger] text::enc(name)[i] != '/' as u8,
        space.len() == 0 || space[space.len() - 1] == '/' as u8,
        vstd::utf8::valid_utf8(space),
    ensures
        Element::Keyword(space + text::enc(name)).names(asked) <==> name == asked,
{
    let n = text::enc(name);
    let b = space + n;
    let class = ByteClass::Except('/' as u8);
    text::lemma_lossy_of_text(name);
    vstd::utf8::valid_utf8_concat(space, n);
    lemma_start_of_name(space, n, b.len() as int);
    assert(b.subrange(space.len() as int, b.len() as int) =~= n);
    text::lemma_encoding_injective(name, asked);
}

proof fn lemma_start_of_name(space: Seq<u8>, n: Seq<u8>, e: int)
    requires
        forall|i: int| 0 <= i < n.len() ==> #[trigger] n[i] != '/' as u8,
        space.len() == 0 || space[space.len() - 1] == '/' as u8,
        space.len() <= e <= space.len() + n.len(),
    ensures
        scan::run_start(space + n, 0, e, ByteClass::Except('/' as u8)) == space.len(),
    decreases e,
{
    let b = space + n;
    if e > space.len() {
        assert(b[e - 1] == n[e - 1 - space.len()]);
        lemma_start_of_name(space, n, e - 1);
    } else if e > 0 {
        assert(b[e - 1] == space[space.len() - 1]);
    }
}

/// A tag before a value is taken off: the element is the one behind it.
pub proof fn law_tag_is_taken_off(s: Seq<u8>, i: int, tag: Seq<u8>)
    requires
        scan::stands(s, i, seq!['#' as u8] + (tag + seq![' ' as u8])),
        forall|k: int| 0 <= k < tag.len() ==> ByteClass::EdnToken.has(#[trigger] tag[k]),
    ensures
        element(s, i) == element(s, i + 1 + tag.len()),
{
    let hash = seq!['#' as u8];
    let sp = seq![' ' as u8];
    scan::lemma_halves(s, i, hash, tag + sp);
    scan::lemma_stands_byte(s, i, hash, 0);
    scan::lemma_halves(s, i + 1, tag, sp);
    scan::lemma_stands_byte(s, i + 1 + tag.len(), sp, 0);
    scan::lemma_run_end_at(s, i, i, ByteClass::EdnGap);
    scan::lemma_stands_run(s, i + 1, tag, ByteClass::EdnToken);
}

} // verus!
