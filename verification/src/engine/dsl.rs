//! Mini query DSL: compiles a one-line expression into a predicate tree.
//!
//! Grammar:
//!
//! ```text
//! expr    := or_expr
//! or_expr := and_expr ("OR" and_expr)*
//! and_expr:= unary ("AND" unary)*
//! unary   := "NOT" unary | atom
//! atom    := "(" expr ")" | clause
//! clause  := field op value
//! op      := "=" | "!=" | "~" | ">" | ">=" | "<" | "<="
//! value   := /[^ ]+/   |   "\"" [^"]* "\""   |   "/" [^/]* "/"
//! ```
//!
//! Precedence: `NOT` binds tightest, then `AND`, then `OR`. Parens override.
//! Operator keywords are case-sensitive ASCII.
//!
//! ASCII white space parts the tokens. A keyword is seen behind other Unicode
//! white space too, but that is not stepped over: what is stepped over then is
//! as many bytes as the keyword has letters.
//!
//! Operators map to:
//! - `=` and `!=`: field equality, and its negation.
//! - `~`: regex against the field.
//! - `>`, `>=`, `<`, `<=`: time ranges; they apply only to `ts`.

use vstd::prelude::*;
use vstd::utf8;

use crate::engine::parse;
use crate::engine::predicate;
use crate::engine::predicate::{
    AndPredicate, AnyPredicate, FieldEqualsPredicate, FieldRegexPredicate, NotPredicate, OrPredicate,
    Predicate, Rule, TimeRangePredicate, TimeRelation,
};
use crate::pattern;
use crate::scan;
use crate::scan::ByteClass;
use crate::text;

verus! {

#[derive(Debug, Clone, Copy, PartialEq, Eq, Structural)]
pub enum Op {
    Eq,
    Ne,
    Regex,
    Gt,
    Ge,
    Lt,
    Le,
}

/// Index of the first byte at or after `i` that is not white space.
pub open spec fn ws(b: Seq<u8>, i: int) -> int {
    scan::run_end(b, i, ByteClass::Whitespace)
}

/// The alphabetic word behind the white space at `i`, Unicode's included;
/// empty when there is none.
pub open spec fn word(b: Seq<u8>, i: int) -> Seq<u8> {
    let w = text::past_white(b, i);
    b.subrange(w, scan::run_end(b, w, ByteClass::Alpha))
}

/// The next word is this keyword, and the step over it does not end inside a
/// character.
pub open spec fn keyword_at(b: Seq<u8>, i: int, keyword: Seq<u8>) -> bool {
    let e = ws(b, i) + keyword.len();
    word(b, i) == keyword && (e >= b.len() || !utf8::is_continuation_byte(b[e]))
}

/// The rest of the query from `i` on.
pub open spec fn rest(b: Seq<u8>, i: int) -> Seq<char> {
    text::piece(b, i, b.len() as int)
}

/// Index behind a keyword of `n` letters and the white space that follows it.
pub open spec fn past_word(b: Seq<u8>, i: int, n: int) -> int {
    ws(b, ws(b, i) + n)
}

/// The operator at `i` and the index behind it.
pub open spec fn operator(b: Seq<u8>, i: int) -> Option<(Op, int)> {
    let two = i + 1 < b.len() && b[i + 1] == '=' as u8;
    if b[i] == '=' as u8 {
        Some((Op::Eq, i + 1))
    } else if b[i] == '~' as u8 {
        Some((Op::Regex, i + 1))
    } else if b[i] == '!' as u8 && two {
        Some((Op::Ne, i + 2))
    } else if b[i] == '>' as u8 {
        Some(
            if two {
                (Op::Ge, i + 2)
            } else {
                (Op::Gt, i + 1)
            },
        )
    } else if b[i] == '<' as u8 {
        Some(
            if two {
                (Op::Le, i + 2)
            } else {
                (Op::Lt, i + 1)
            },
        )
    } else {
        None
    }
}

/// Index of the first `close` at or after `i`, or the length; a backslash
/// takes the byte behind it along.
pub open spec fn delimited_end(b: Seq<u8>, i: int, close: u8) -> int
    decreases b.len() - i,
{
    if !(0 <= i < b.len()) || b[i] == close {
        i
    } else if b[i] == '\\' as u8 && i + 1 < b.len() {
        delimited_end(b, i + 2, close)
    } else {
        delimited_end(b, i + 1, close)
    }
}

pub proof fn lemma_delimited_end(b: Seq<u8>, i: int, close: u8)
    requires
        0 <= i <= b.len(),
    ensures
        i <= delimited_end(b, i, close) <= b.len(),
        delimited_end(b, i, close) < b.len() ==> b[delimited_end(b, i, close)] == close,
    decreases b.len() - i,
{
    if i < b.len() && b[i] != close {
        if b[i] == '\\' as u8 && i + 1 < b.len() {
            lemma_delimited_end(b, i + 2, close);
        } else {
            lemma_delimited_end(b, i + 1, close);
        }
    }
}

/// The value at `i` and the index behind it: `/.../` after `~`, `"..."`, or a
/// bare run up to white space or `)`. Escapes stay in the value as written.
pub open spec fn value_at(b: Seq<u8>, i: int, op: Op) -> (Seq<char>, int) {
    if (op is Regex && b[i] == '/' as u8) || b[i] == '"' as u8 {
        let e = delimited_end(b, i + 1, b[i]);
        (
            text::piece(b, i + 1, e),
            if e < b.len() {
                e + 1
            } else {
                e
            },
        )
    } else {
        let e = scan::run_end(b, i, ByteClass::BareValue);
        (text::piece(b, i, e), e)
    }
}

/// What a clause means, or what is wrong with it.
pub open spec fn clause_rule(field: Seq<char>, op: Op, value: Seq<char>) -> Result<Rule, Seq<char>> {
    match op {
        Op::Eq => Ok(Rule::FieldIs { field, value }),
        Op::Ne => Ok(Rule::Not { inner: Box::new(Rule::FieldIs { field, value }) }),
        Op::Regex => match pattern::text_regex_error(value) {
            None => Ok(Rule::FieldMatches { field, pattern: value }),
            Some(e) => Err("regex error on `"@ + field + "`: "@ + e),
        },
        _ => if field != "ts"@ {
            Err("comparison operators are only supported on `ts`, got `"@ + field + "`"@)
        } else {
            match parse::partial_rfc3339(value) {
                None => Err("could not parse timestamp `"@ + value + "`"@),
                Some(t) => Ok(
                    Rule::Time {
                        relation: match op {
                            Op::Gt => TimeRelation::Greater,
                            Op::Ge => TimeRelation::GreaterEq,
                            Op::Lt => TimeRelation::Less,
                            _ => TimeRelation::LessEq,
                        },
                        bound: t as i64,
                    },
                ),
            }
        },
    }
}

/// A boolean keyword.
pub open spec fn is_keyword(w: Seq<u8>) -> bool {
    w == text::enc("AND"@) || w == text::enc("OR"@) || w == text::enc("NOT"@)
}

/// `clause := field op value`, with the index behind it.
pub open spec fn clause(b: Seq<u8>, pos: int) -> Result<(Rule, int), Seq<char>> {
    let i = ws(b, pos);
    let e = scan::run_end(b, i, ByteClass::FieldName);
    let o = ws(b, e);
    if is_keyword(word(b, pos)) {
        Err("unexpected `"@ + utf8::decode_utf8(word(b, pos)) + "` — expected a field name"@)
    } else if e == i {
        Err("expected field name at `"@ + rest(b, i) + "`"@)
    } else if o >= b.len() {
        Err("expected operator"@)
    } else {
        match operator(b, o) {
            None => Err("expected operator at `"@ + rest(b, o) + "`"@),
            Some((op, p)) => {
                let v = ws(b, p);
                if v >= b.len() {
                    Err("expected value"@)
                } else {
                    let (value, end) = value_at(b, v, op);
                    match clause_rule(text::piece(b, i, e), op, value) {
                        Ok(r) => Ok((r, end)),
                        Err(m) => Err(m),
                    }
                }
            },
        }
    }
}

/// `atom := "(" expr ")" | clause`.
pub open spec fn atom(b: Seq<u8>, pos: int) -> Result<(Rule, int), Seq<char>>
    decreases b.len() - pos, 0nat,
{
    let i = ws(b, pos);
    if i < b.len() && b[i] == '(' as u8 {
        let start = ws(b, i + 1);
        if !(pos < start <= b.len()) {
            Err(Seq::empty())
        } else {
            match or_expr(b, start) {
                Err(m) => Err(m),
                Ok((r, p)) => {
                    let c = ws(b, p);
                    if c >= b.len() || b[c] != ')' as u8 {
                        Err("expected `)` to close group, got `"@ + rest(b, c) + "`"@)
                    } else {
                        Ok((r, ws(b, c + 1)))
                    }
                },
            }
        }
    } else {
        clause(b, pos)
    }
}

/// `unary := "NOT" unary | atom`.
pub open spec fn unary(b: Seq<u8>, pos: int) -> Result<(Rule, int), Seq<char>>
    decreases b.len() - pos, 1nat,
{
    if keyword_at(b, pos, text::enc("NOT"@)) {
        let start = past_word(b, pos, 3);
        if !(pos < start <= b.len()) {
            Err(Seq::empty())
        } else {
            match unary(b, start) {
                Err(m) => Err(m),
                Ok((r, p)) => Ok((Rule::Not { inner: Box::new(r) }, p)),
            }
        }
    } else {
        atom(b, pos)
    }
}

/// The `("AND" unary)*` behind the parts read so far.
pub open spec fn and_tail(b: Seq<u8>, pos: int, parts: Seq<Rule>) -> Result<(Rule, int), Seq<char>>
    decreases b.len() - pos, 2nat,
{
    if keyword_at(b, pos, text::enc("AND"@)) {
        let start = past_word(b, pos, 3);
        if !(pos < start <= b.len()) {
            Err(Seq::empty())
        } else {
            match unary(b, start) {
                Err(m) => Err(m),
                Ok((r, p)) => if start < p <= b.len() {
                    and_tail(b, p, parts.push(r))
                } else {
                    Err(Seq::empty())
                },
            }
        }
    } else {
        Ok((Rule::All { parts }, pos))
    }
}

/// `and_expr := unary ("AND" unary)*`. A lone unary stands for itself.
pub open spec fn and_expr(b: Seq<u8>, pos: int) -> Result<(Rule, int), Seq<char>>
    decreases b.len() - pos, 2nat,
{
    match unary(b, pos) {
        Err(m) => Err(m),
        Ok((r, p)) => if !keyword_at(b, p, text::enc("AND"@)) {
            Ok((r, p))
        } else if pos < p <= b.len() {
            and_tail(b, p, seq![r])
        } else {
            Err(Seq::empty())
        },
    }
}

/// The `("OR" and_expr)*` behind the parts read so far.
pub open spec fn or_tail(b: Seq<u8>, pos: int, parts: Seq<Rule>) -> Result<(Rule, int), Seq<char>>
    decreases b.len() - pos, 3nat,
{
    if keyword_at(b, pos, text::enc("OR"@)) {
        let start = past_word(b, pos, 2);
        if !(pos < start <= b.len()) {
            Err(Seq::empty())
        } else {
            match and_expr(b, start) {
                Err(m) => Err(m),
                Ok((r, p)) => if start < p <= b.len() {
                    or_tail(b, p, parts.push(r))
                } else {
                    Err(Seq::empty())
                },
            }
        }
    } else {
        Ok((Rule::Any { parts }, pos))
    }
}

/// `or_expr := and_expr ("OR" and_expr)*`. A lone and_expr stands for itself.
pub open spec fn or_expr(b: Seq<u8>, pos: int) -> Result<(Rule, int), Seq<char>>
    decreases b.len() - pos, 3nat,
{
    match and_expr(b, pos) {
        Err(m) => Err(m),
        Ok((r, p)) => if !keyword_at(b, p, text::enc("OR"@)) {
            Ok((r, p))
        } else if pos < p <= b.len() {
            or_tail(b, p, seq![r])
        } else {
            Err(Seq::empty())
        },
    }
}

/// The rule that a whole query stands for, or what is wrong with it.
pub open spec fn query(b: Seq<u8>) -> Result<Rule, Seq<char>> {
    let i = ws(b, 0);
    if i >= b.len() {
        Err("empty query"@)
    } else {
        match or_expr(b, i) {
            Err(m) => Err(m),
            Ok((r, p)) => if ws(b, p) < b.len() {
                Err("unexpected trailing input: `"@ + rest(b, ws(b, p)) + "`"@)
            } else {
                Ok(r)
            },
        }
    }
}

/// A position between two characters of a valid text.
pub open spec fn at_boundary(b: Seq<u8>, i: int) -> bool {
    utf8::valid_utf8(b) && 0 <= i <= b.len() && utf8::is_char_boundary(b, i)
}

/// What a parsing step gives is what the grammar says.
pub open spec fn agrees(
    r: Result<(AnyPredicate, usize), String>,
    want: Result<(Rule, int), Seq<char>>,
    b: Seq<u8>,
    pos: int,
) -> bool {
    match r {
        Ok((p, end)) => want == Ok::<(Rule, int), Seq<char>>((predicate::rule_of(p), end as int))
            && pos < end <= b.len() && at_boundary(b, end as int),
        Err(e) => want == Err::<(Rule, int), Seq<char>>(e@),
    }
}

fn skip_ws(b: &[u8], i: usize) -> (r: usize)
    requires
        at_boundary(b@, i as int),
    ensures
        r == ws(b@, i as int),
        i <= r <= b@.len(),
        at_boundary(b@, r as int),
{
    proof {
        text::lemma_run_boundary(b@, i as int, ByteClass::Whitespace);
    }
    scan::skip(b, i, ByteClass::Whitespace)
}

/// ASCII white space is white space.
proof fn lemma_ws_before_white(b: Seq<u8>, i: int)
    requires
        0 <= i <= b.len(),
    ensures
        ws(b, i) <= text::past_white(b, i),
        text::past_white(b, i) == text::past_white(b, ws(b, i)),
    decreases b.len() - i,
{
    if i < b.len() && ByteClass::Whitespace.has(b[i]) {
        text::lemma_ascii_white(b, i);
        lemma_ws_before_white(b, i + 1);
    } else {
        text::lemma_past_white(b, i);
    }
}

/// The next word is this.
fn word_is(b: &[u8], pos: usize, keyword: &str) -> (r: bool)
    requires
        pos <= b@.len(),
    ensures
        r == (word(b@, pos as int) == text::enc(keyword@)),
{
    let i: usize = text::skip_white(b, pos);
    let e: usize = scan::skip(b, i, ByteClass::Alpha);
    scan::bytes_eq(&b[i..e], keyword.as_bytes())
}

/// The next word is this keyword.
fn peek_is(b: &[u8], pos: usize, keyword: &str) -> (r: bool)
    requires
        at_boundary(b@, pos as int),
    ensures
        r == keyword_at(b@, pos as int, text::enc(keyword@)),
{
    if !word_is(b, pos, keyword) {
        return false;
    }
    let i: usize = skip_ws(b, pos);
    proof {
        lemma_ws_before_white(b@, pos as int);
        text::lemma_past_white(b@, pos as int);
        scan::lemma_run_end(b@, text::past_white(b@, pos as int), ByteClass::Alpha);
    }
    assert(i + word(b@, pos as int).len() <= b.len());
    let e: usize = i + keyword.as_bytes().len();
    e >= b.len() || b[e] < 0x80 || b[e] > 0xbf
}

/// Step over a keyword that was peeked.
fn consume(b: &[u8], pos: usize, keyword: &str) -> (r: usize)
    requires
        at_boundary(b@, pos as int),
        keyword_at(b@, pos as int, text::enc(keyword@)),
        utf8::is_ascii_chars(keyword@),
        keyword@.len() > 0,
    ensures
        r == past_word(b@, pos as int, keyword@.len() as int),
        pos < r <= b@.len(),
        at_boundary(b@, r as int),
{
    let i: usize = skip_ws(b, pos);
    proof {
        text::lemma_ascii_literal(keyword);
        lemma_ws_before_white(b@, pos as int);
        text::lemma_past_white(b@, pos as int);
        scan::lemma_run_end(b@, text::past_white(b@, pos as int), ByteClass::Alpha);
    }
    assert(i + word(b@, pos as int).len() <= b.len());
    let e: usize = i + keyword.as_bytes().len();
    proof {
        utf8::is_char_boundary_start_end_of_seq(b@);
        if e < b@.len() {
            utf8::is_char_boundary_iff_not_is_continuation_byte(b@, e as int);
        }
    }
    skip_ws(b, e)
}

fn quoted_message(prefix: &str, shown: &str, suffix: &str) -> (r: String)
    ensures
        r@ == prefix@ + shown@ + suffix@,
{
    prefix.to_owned().concat(shown).concat(suffix)
}

fn take_rest(b: &[u8], i: usize) -> (r: String)
    requires
        at_boundary(b@, i as int),
    ensures
        r@ == rest(b@, i as int),
{
    proof {
        utf8::is_char_boundary_start_end_of_seq(b@);
    }
    text::take_piece(b, i, b.len())
}

fn read_operator(b: &[u8], i: usize) -> (r: Option<(Op, usize)>)
    requires
        at_boundary(b@, i as int),
        i < b@.len(),
    ensures
        match r {
            Some((op, e)) => operator(b@, i as int) == Some((op, e as int)) && i < e <= b@.len()
                && at_boundary(b@, e as int),
            None => operator(b@, i as int) is None,
        },
{
    let two: bool = b.len() - i > 1 && b[i + 1] == '=' as u8;
    proof {
        if b@[i as int] < 0x80 {
            text::lemma_ascii_boundaries(b@, i as int);
        }
        if two {
            text::lemma_ascii_boundaries(b@, i + 1);
        }
    }
    let c: u8 = b[i];
    if c == '=' as u8 {
        Some((Op::Eq, i + 1))
    } else if c == '~' as u8 {
        Some((Op::Regex, i + 1))
    } else if c == '!' as u8 && two {
        Some((Op::Ne, i + 2))
    } else if c == '>' as u8 {
        if two {
            Some((Op::Ge, i + 2))
        } else {
            Some((Op::Gt, i + 1))
        }
    } else if c == '<' as u8 {
        if two {
            Some((Op::Le, i + 2))
        } else {
            Some((Op::Lt, i + 1))
        }
    } else {
        None
    }
}

fn find_delimited_end(b: &[u8], from: usize, close: u8) -> (r: usize)
    requires
        from <= b@.len(),
    ensures
        r == delimited_end(b@, from as int, close),
        from <= r <= b@.len(),
        r < b@.len() ==> b@[r as int] == close,
{
    let mut i: usize = from;
    while i < b.len() && b[i] != close
        invariant
            from <= i <= b@.len(),
            delimited_end(b@, from as int, close) == delimited_end(b@, i as int, close),
        decreases b@.len() - i,
    {
        if b[i] == '\\' as u8 && i + 1 < b.len() {
            i = i + 2;
        } else {
            i = i + 1;
        }
    }
    i
}

fn read_value(b: &[u8], i: usize, op: Op) -> (r: (String, usize))
    requires
        at_boundary(b@, i as int),
        i < b@.len(),
    ensures
        value_at(b@, i as int, op) == (r.0@, r.1 as int),
        i <= r.1 <= b@.len(),
        at_boundary(b@, r.1 as int),
{
    let first: u8 = b[i];
    proof {
        utf8::is_char_boundary_start_end_of_seq(b@);
    }
    let slash: bool = match op {
        Op::Regex => first == '/' as u8,
        _ => false,
    };
    if slash || first == '"' as u8 {
        let e: usize = find_delimited_end(b, i + 1, first);
        proof {
            text::lemma_ascii_boundaries(b@, i as int);
            if e < b@.len() {
                text::lemma_ascii_boundaries(b@, e as int);
            }
        }
        let value: String = text::take_piece(b, i + 1, e);
        if e < b.len() {
            (value, e + 1)
        } else {
            (value, e)
        }
    } else {
        let e: usize = scan::skip(b, i, ByteClass::BareValue);
        proof {
            if e < b@.len() {
                text::lemma_ascii_boundaries(b@, e as int);
            }
        }
        (text::take_piece(b, i, e), e)
    }
}

/// Build the predicate of a clause.
pub fn build_predicate(field: &str, op: Op, value: &str) -> (r: Result<AnyPredicate, String>)
    ensures
        match r {
            Ok(p) => clause_rule(field@, op, value@) == Ok::<Rule, Seq<char>>(
                predicate::rule_of(p),
            ),
            Err(e) => clause_rule(field@, op, value@) == Err::<Rule, Seq<char>>(e@),
        },
{
    match op {
        Op::Eq => Ok(
            AnyPredicate::FieldEquals(
                FieldEqualsPredicate::new(field.to_owned(), value.to_owned()),
            ),
        ),
        Op::Ne => Ok(
            AnyPredicate::Not(
                NotPredicate::new(
                    AnyPredicate::FieldEquals(
                        FieldEqualsPredicate::new(field.to_owned(), value.to_owned()),
                    ),
                ),
            ),
        ),
        Op::Regex => match FieldRegexPredicate::new(field.to_owned(), value) {
            Ok(p) => Ok(AnyPredicate::FieldRegex(p)),
            Err(e) => Err(
                "regex error on `".to_owned().concat(field).concat("`: ").concat(e.as_str()),
            ),
        },
        _ => {
            if !text::str_eq(field, "ts") {
                return Err(
                    quoted_message(
                        "comparison operators are only supported on `ts`, got `",
                        field,
                        "`",
                    ),
                );
            }
            let ts: i64 = match parse::parse_partial_rfc3339(value) {
                Some(t) => t,
                None => {
                    return Err(quoted_message("could not parse timestamp `", value, "`"));
                },
            };
            Ok(
                AnyPredicate::Time(
                    match op {
                        Op::Gt => TimeRangePredicate::greater_than(ts),
                        Op::Ge => TimeRangePredicate::at_or_after(ts),
                        Op::Lt => TimeRangePredicate::less_than(ts),
                        _ => TimeRangePredicate::at_or_before(ts),
                    },
                ),
            )
        },
    }
}

fn parse_clause(b: &[u8], pos: usize) -> (r: Result<(AnyPredicate, usize), String>)
    requires
        at_boundary(b@, pos as int),
    ensures
        agrees(r, clause(b@, pos as int), b@, pos as int),
{
    let i: usize = skip_ws(b, pos);
    let e: usize = scan::skip(b, i, ByteClass::FieldName);
    proof {
        text::lemma_run_boundary(b@, i as int, ByteClass::FieldName);
    }
    let keyword: Option<&str> = if word_is(b, pos, "AND") {
        Some("AND")
    } else if word_is(b, pos, "OR") {
        Some("OR")
    } else if word_is(b, pos, "NOT") {
        Some("NOT")
    } else {
        None
    };
    if let Some(kw) = keyword {
        proof {
            utf8::encode_utf8_decode_utf8(kw@);
        }
        return Err(quoted_message("unexpected `", kw, "` — expected a field name"));
    }
    if e == i {
        let shown: String = take_rest(b, i);
        return Err(quoted_message("expected field name at `", shown.as_str(), "`"));
    }
    let o: usize = skip_ws(b, e);
    if o >= b.len() {
        return Err("expected operator".to_owned());
    }
    let (op, p) = match read_operator(b, o) {
        Some(x) => x,
        None => {
            let shown: String = take_rest(b, o);
            return Err(quoted_message("expected operator at `", shown.as_str(), "`"));
        },
    };
    let v: usize = skip_ws(b, p);
    if v >= b.len() {
        return Err("expected value".to_owned());
    }
    let field: String = text::take_piece(b, i, e);
    let (value, end) = read_value(b, v, op);
    match build_predicate(field.as_str(), op, value.as_str()) {
        Ok(pred) => Ok((pred, end)),
        Err(m) => Err(m),
    }
}

/// `atom := "(" expr ")" | clause`.
fn parse_atom(b: &[u8], pos: usize) -> (r: Result<(AnyPredicate, usize), String>)
    requires
        at_boundary(b@, pos as int),
    ensures
        agrees(r, atom(b@, pos as int), b@, pos as int),
    decreases b@.len() - pos, 0nat,
{
    let i: usize = skip_ws(b, pos);
    if i < b.len() && b[i] == '(' as u8 {
        proof {
            text::lemma_ascii_boundaries(b@, i as int);
        }
        let start: usize = skip_ws(b, i + 1);
        let (inner, p) = match parse_or(b, start) {
            Ok(x) => x,
            Err(m) => {
                return Err(m);
            },
        };
        let c: usize = skip_ws(b, p);
        if c >= b.len() || b[c] != ')' as u8 {
            let shown: String = take_rest(b, c);
            return Err(quoted_message("expected `)` to close group, got `", shown.as_str(), "`"));
        }
        proof {
            text::lemma_ascii_boundaries(b@, c as int);
        }
        Ok((inner, skip_ws(b, c + 1)))
    } else {
        parse_clause(b, pos)
    }
}

/// `unary := "NOT" unary | atom`.
fn parse_unary(b: &[u8], pos: usize) -> (r: Result<(AnyPredicate, usize), String>)
    requires
        at_boundary(b@, pos as int),
    ensures
        agrees(r, unary(b@, pos as int), b@, pos as int),
    decreases b@.len() - pos, 1nat,
{
    if peek_is(b, pos, "NOT") {
        proof {
            reveal_strlit("NOT");
        }
        let start: usize = consume(b, pos, "NOT");
        match parse_unary(b, start) {
            Ok((inner, p)) => Ok((AnyPredicate::Not(NotPredicate::new(inner)), p)),
            Err(m) => Err(m),
        }
    } else {
        parse_atom(b, pos)
    }
}

/// `and_expr := unary ("AND" unary)*`.
fn parse_and(b: &[u8], pos: usize) -> (r: Result<(AnyPredicate, usize), String>)
    requires
        at_boundary(b@, pos as int),
    ensures
        agrees(r, and_expr(b@, pos as int), b@, pos as int),
    decreases b@.len() - pos, 2nat,
{
    let (first, p) = match parse_unary(b, pos) {
        Ok(x) => x,
        Err(m) => {
            return Err(m);
        },
    };
    if !peek_is(b, p, "AND") {
        return Ok((first, p));
    }
    let mut and: AndPredicate = AndPredicate::new();
    and.push(first);
    let mut at: usize = p;
    assert(predicate::rules_of(and.parts@) =~= seq![predicate::rule_of(first)]);
    while peek_is(b, at, "AND")
        invariant
            pos < at <= b@.len(),
            at_boundary(b@, at as int),
            and_expr(b@, pos as int) == and_tail(
                b@,
                at as int,
                predicate::rules_of(and.parts@),
            ),
        decreases b@.len() - at,
    {
        proof {
            reveal_strlit("AND");
        }
        let start: usize = consume(b, at, "AND");
        match parse_unary(b, start) {
            Ok((next, q)) => {
                let ghost before = and.parts@;
                and.push(next);
                assert(predicate::rules_of(and.parts@) =~= predicate::rules_of(before).push(
                    predicate::rule_of(next),
                ));
                at = q;
            },
            Err(m) => {
                return Err(m);
            },
        }
    }
    proof {
        predicate::lemma_rule_of_and(and);
    }
    Ok((AnyPredicate::And(and), at))
}

/// `or_expr := and_expr ("OR" and_expr)*`.
fn parse_or(b: &[u8], pos: usize) -> (r: Result<(AnyPredicate, usize), String>)
    requires
        at_boundary(b@, pos as int),
    ensures
        agrees(r, or_expr(b@, pos as int), b@, pos as int),
    decreases b@.len() - pos, 3nat,
{
    let (first, p) = match parse_and(b, pos) {
        Ok(x) => x,
        Err(m) => {
            return Err(m);
        },
    };
    if !peek_is(b, p, "OR") {
        return Ok((first, p));
    }
    let mut or: OrPredicate = OrPredicate::new();
    or.push(first);
    let mut at: usize = p;
    assert(predicate::rules_of(or.parts@) =~= seq![predicate::rule_of(first)]);
    while peek_is(b, at, "OR")
        invariant
            pos < at <= b@.len(),
            at_boundary(b@, at as int),
            or_expr(b@, pos as int) == or_tail(b@, at as int, predicate::rules_of(or.parts@)),
        decreases b@.len() - at,
    {
        proof {
            reveal_strlit("OR");
        }
        let start: usize = consume(b, at, "OR");
        match parse_and(b, start) {
            Ok((next, q)) => {
                let ghost before = or.parts@;
                or.push(next);
                assert(predicate::rules_of(or.parts@) =~= predicate::rules_of(before).push(
                    predicate::rule_of(next),
                ));
                at = q;
            },
            Err(m) => {
                return Err(m);
            },
        }
    }
    proof {
        predicate::lemma_rule_of_or(or);
    }
    Ok((AnyPredicate::Or(or), at))
}

/// Compile `source` into a predicate tree. Returns a clear error when the
/// input doesn't match the grammar.
pub fn compile(source: &str) -> (r: Result<AnyPredicate, String>)
    ensures
        match r {
            Ok(p) => query(text::enc(source@)) == Ok::<Rule, Seq<char>>(p.rule()),
            Err(e) => query(text::enc(source@)) == Err::<Rule, Seq<char>>(e@),
        },
{
    let b: &[u8] = source.as_bytes();
    proof {
        utf8::encode_utf8_valid_utf8(source@);
        utf8::is_char_boundary_start_end_of_seq(b@);
    }
    let i: usize = skip_ws(b, 0);
    if i >= b.len() {
        return Err("empty query".to_owned());
    }
    match parse_or(b, i) {
        Err(m) => Err(m),
        Ok((pred, p)) => {
            let end: usize = skip_ws(b, p);
            if end < b.len() {
                let shown: String = take_rest(b, end);
                return Err(quoted_message("unexpected trailing input: `", shown.as_str(), "`"));
            }
            Ok(pred)
        },
    }
}

} // verus!
