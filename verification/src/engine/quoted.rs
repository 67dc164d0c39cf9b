//! Double-quoted values with `\"` and `\\` escapes, as logfmt and EDN write
//! them.

use vstd::prelude::*;

use crate::scan;
use crate::text;

verus! {

/// A quoted value read from just behind its opening quote.
pub struct Quoted {
    /// The value with its escapes resolved.
    pub body: Seq<u8>,
    /// Index just behind the closing quote, or the length when there is none.
    pub end: int,
    /// At least one escape was resolved.
    pub escaped: bool,
    /// A closing quote was found.
    pub closed: bool,
}

impl Quoted {
    /// The value's token.
    pub open spec fn token(self) -> Token {
        Token { body: self.body, escaped: self.escaped }
    }
}

/// A value as a scanner hands it out: verbatim bytes, or, where escapes had to
/// be resolved, text.
pub struct Token {
    pub body: Seq<u8>,
    pub escaped: bool,
}

impl Token {
    pub open spec fn bytes(self) -> Seq<u8> {
        if self.escaped {
            text::enc(text::lossy(self.body))
        } else {
            self.body
        }
    }

    pub open spec fn text(self) -> Option<Seq<char>> {
        if self.escaped {
            Some(text::lossy(self.body))
        } else {
            text::decoded(self.body)
        }
    }
}

/// Bytes taken as they stand.
pub open spec fn verbatim(body: Seq<u8>) -> Token {
    Token { body, escaped: false }
}

/// `s[i]` opens one of the two escapes.
pub open spec fn is_escape(s: Seq<u8>, i: int) -> bool {
    0 <= i && i + 1 < s.len() && s[i] == '\\' as u8 && (s[i + 1] == '"' as u8 || s[i + 1]
        == '\\' as u8)
}

/// Read a quoted value whose opening quote stands just before `i`.
pub open spec fn quoted(s: Seq<u8>, i: int) -> Quoted
    decreases s.len() - i,
{
    if !(0 <= i < s.len()) {
        Quoted { body: Seq::empty(), end: s.len() as int, escaped: false, closed: false }
    } else if is_escape(s, i) {
        let q = quoted(s, i + 2);
        Quoted { body: seq![s[i + 1]] + q.body, end: q.end, escaped: true, closed: q.closed }
    } else if s[i] == '"' as u8 {
        Quoted { body: Seq::empty(), end: i + 1, escaped: false, closed: true }
    } else {
        let q = quoted(s, i + 1);
        Quoted { body: seq![s[i]] + q.body, end: q.end, escaped: q.escaped, closed: q.closed }
    }
}

/// A quoted value ends behind its start and inside the line.
pub proof fn lemma_quoted_end(s: Seq<u8>, i: int)
    requires
        0 <= i <= s.len(),
    ensures
        i <= quoted(s, i).end <= s.len(),
    decreases s.len() - i,
{
    if i < s.len() {
        if is_escape(s, i) {
            lemma_quoted_end(s, i + 2);
        } else if s[i] != '"' as u8 {
            lemma_quoted_end(s, i + 1);
        }
    }
}

/// A scanned value.
pub(crate) enum QuotedText<'a> {
    Raw(&'a [u8]),
    Unescaped(String),
}

impl<'a> QuotedText<'a> {
    pub(crate) open spec fn is_token(self, t: Token) -> bool {
        match self {
            QuotedText::Raw(b) => !t.escaped && b@ == t.body,
            QuotedText::Unescaped(s) => t.escaped && s@ == text::lossy(t.body),
        }
    }
}

/// Scan a quoted value whose opening quote stands just before `start`. Gives
/// the value and the index behind it.
pub(crate) fn scan_quoted<'a>(s: &'a [u8], start: usize) -> (r: (QuotedText<'a>, usize))
    requires
        start <= s@.len(),
    ensures
        r.0.is_token(quoted(s@, start as int).token()),
        r.1 == quoted(s@, start as int).end,
        start <= r.1 <= s@.len(),
{
    let ghost whole = quoted(s@, start as int);
    let mut owned: Option<Vec<u8>> = None;
    let mut i: usize = start;
    let ghost mut acc: Seq<u8> = Seq::empty();
    proof {
        lemma_quoted_end(s@, start as int);
        assert(acc + whole.body =~= whole.body);
        assert(s@.subrange(start as int, i as int) =~= acc);
    }
    while i < s.len()
        invariant
            start <= i <= s@.len(),
            whole == quoted(s@, start as int),
            whole.body == acc + quoted(s@, i as int).body,
            whole.end == quoted(s@, i as int).end,
            start <= whole.end <= s@.len(),
            whole.escaped == (owned is Some || quoted(s@, i as int).escaped),
            owned matches Some(buf) ==> buf@ == acc,
            owned is None ==> acc == s@.subrange(start as int, i as int),
        decreases s@.len() - i,
    {
        let b: u8 = s[i];
        if b == '\\' as u8 && i + 1 < s.len() && (s[i + 1] == '"' as u8 || s[i + 1] == '\\' as u8) {
            let next: u8 = s[i + 1];
            let mut buf: Vec<u8> = match owned {
                Some(v) => v,
                None => scan::copied(&s[start..i]),
            };
            buf.push(next);
            owned = Some(buf);
            proof {
                assert(acc + (seq![next] + quoted(s@, i + 2).body) =~= acc.push(next) + quoted(
                    s@,
                    i + 2,
                ).body);
                acc = acc.push(next);
            }
            i = i + 2;
        } else if b == '"' as u8 {
            assert(whole.body =~= acc);
            return match owned {
                Some(buf) => (QuotedText::Unescaped(text::from_utf8_lossy(&buf)), i + 1),
                None => (QuotedText::Raw(&s[start..i]), i + 1),
            };
        } else {
            owned = match owned {
                Some(v) => {
                    let mut v = v;
                    v.push(b);
                    Some(v)
                },
                None => None,
            };
            proof {
                assert(acc + (seq![b] + quoted(s@, i + 1).body) =~= acc.push(b) + quoted(
                    s@,
                    i + 1,
                ).body);
                acc = acc.push(b);
                if owned is None {
                    assert(s@.subrange(start as int, i + 1) =~= acc);
                }
            }
            i = i + 1;
        }
    }
    assert(whole.body =~= acc);
    match owned {
        Some(buf) => (QuotedText::Unescaped(text::from_utf8_lossy(&buf)), i),
        None => (QuotedText::Raw(&s[start..i]), i),
    }
}

/// A value as it is written between quotes: a backslash before each quote and
/// each backslash.
pub open spec fn escaped(v: Seq<u8>) -> Seq<u8>
    decreases v.len(),
{
    if v.len() == 0 {
        Seq::empty()
    } else if v[0] == '"' as u8 || v[0] == '\\' as u8 {
        seq!['\\' as u8, v[0]] + escaped(v.skip(1))
    } else {
        seq![v[0]] + escaped(v.skip(1))
    }
}

/// Some byte of the value is written with a backslash before it.
pub open spec fn needs_escape(v: Seq<u8>) -> bool {
    exists|k: int| 0 <= k < v.len() && (#[trigger] v[k] == '"' as u8 || v[k] == '\\' as u8)
}

/// A value that was written with escapes and a closing quote is read back.
pub proof fn lemma_written_is_read(s: Seq<u8>, i: int, v: Seq<u8>)
    requires
        scan::stands(s, i, escaped(v) + seq!['"' as u8]),
    ensures
        quoted(s, i) == (Quoted {
            body: v,
            end: i + escaped(v).len() + 1,
            escaped: needs_escape(v),
            closed: true,
        }),
    decreases v.len(),
{
    let close = seq!['"' as u8];
    let written = escaped(v) + close;
    if v.len() == 0 {
        assert(written =~= close);
        scan::lemma_stands_byte(s, i, close, 0);
        assert(quoted(s, i).body =~= v);
    } else {
        let rest = v.skip(1);
        let after = escaped(rest) + close;
        if v[0] == '"' as u8 || v[0] == '\\' as u8 {
            let pair = seq!['\\' as u8, v[0]];
            assert(written =~= pair + after);
            scan::lemma_halves(s, i, pair, after);
            scan::lemma_stands_byte(s, i, pair, 0);
            scan::lemma_stands_byte(s, i, pair, 1);
            lemma_written_is_read(s, i + 2, rest);
            assert(is_escape(s, i));
            assert(needs_escape(v));
            assert(seq![v[0]] + rest =~= v);
        } else {
            let one = seq![v[0]];
            assert(written =~= one + after);
            scan::lemma_halves(s, i, one, after);
            scan::lemma_stands_byte(s, i, one, 0);
            lemma_written_is_read(s, i + 1, rest);
            assert(one + rest =~= v);
            if needs_escape(rest) {
                let k = choose|k: int|
                    0 <= k < rest.len() && (#[trigger] rest[k] == '"' as u8 || rest[k]
                        == '\\' as u8);
                assert(v[k + 1] == rest[k]);
            }
            if needs_escape(v) {
                let k = choose|k: int|
                    0 <= k < v.len() && (#[trigger] v[k] == '"' as u8 || v[k] == '\\' as u8);
                assert(rest[k - 1] == v[k]);
            }
        }
    }
}

} // verus!
