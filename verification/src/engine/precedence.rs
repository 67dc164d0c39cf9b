//! What the precedence of a query's operators comes to: which group a bare
//! query stands for, and which queries select the same records.

use vstd::prelude::*;

use crate::engine::dsl;
use crate::engine::format::Dialect;
use crate::engine::predicate;
use crate::engine::predicate::Rule;
use crate::scan;
use crate::scan::ByteClass;
use crate::text;

verus! {

/// The text is one whole clause that means `r`: it starts with its field name,
/// and white space behind it is no part of its value.
#[verifier::opaque]
pub open spec fn is_clause(c: Seq<u8>, r: Rule) -> bool {
    &&& c.len() > 0
    &&& !ByteClass::Whitespace.has(c[0])
    &&& dsl::clause(c.push(' ' as u8), 0) == Ok::<(Rule, int), Seq<char>>((r, c.len() as int))
}

/// `a AND b`.
#[verifier::opaque]
pub open spec fn and_of(a: Seq<u8>, b: Seq<u8>) -> Seq<u8> {
    a + text::enc(" AND "@) + b
}

/// `a OR b`.
#[verifier::opaque]
pub open spec fn or_of(a: Seq<u8>, b: Seq<u8>) -> Seq<u8> {
    a + text::enc(" OR "@) + b
}

/// `NOT a`.
#[verifier::opaque]
pub open spec fn not_of(a: Seq<u8>) -> Seq<u8> {
    text::enc("NOT "@) + a
}

/// `(a)`.
#[verifier::opaque]
pub open spec fn group_of(a: Seq<u8>) -> Seq<u8> {
    text::enc("("@) + a + text::enc(")"@)
}

/// The negation of a rule.
pub open spec fn negated(r: Rule) -> Rule {
    Rule::Not { inner: Box::new(r) }
}

/// The rules select the same records.
pub open spec fn same_records(r: Rule, s: Rule) -> bool {
    forall|ts: i64, sev: u8, dialect: Dialect, line: Seq<u8>| #[trigger]
        r.holds(ts, sev, dialect, line) == s.holds(ts, sev, dialect, line)
}

/// A step of the grammar reads `r` and ends at `e`.
spec fn reads(step: Result<(Rule, int), Seq<char>>, r: Rule, e: int) -> bool {
    step == Ok::<(Rule, int), Seq<char>>((r, e))
}

/// A unary at `p` reads `r` and ends at `e`.
#[verifier::opaque]
spec fn reads_unary(b: Seq<u8>, p: int, r: Rule, e: int) -> bool {
    reads(dsl::unary(b, p), r, e)
}

#[verifier::opaque]
spec fn reads_and(b: Seq<u8>, p: int, r: Rule, e: int) -> bool {
    reads(dsl::and_expr(b, p), r, e)
}

#[verifier::opaque]
spec fn reads_or(b: Seq<u8>, p: int, r: Rule, e: int) -> bool {
    reads(dsl::or_expr(b, p), r, e)
}

/// `AND` comes next at `q`, and what follows it starts at `start`.
#[verifier::opaque]
spec fn and_next(b: Seq<u8>, q: int, start: int) -> bool {
    dsl::keyword_at(b, q, text::enc("AND"@)) && dsl::past_word(b, q, 3) == start
}

/// `OR` comes next at `q`, and what follows it starts at `start`.
#[verifier::opaque]
spec fn or_next(b: Seq<u8>, q: int, start: int) -> bool {
    dsl::keyword_at(b, q, text::enc("OR"@)) && dsl::past_word(b, q, 2) == start
}

#[verifier::opaque]
spec fn no_and_next(b: Seq<u8>, q: int) -> bool {
    !dsl::keyword_at(b, q, text::enc("AND"@))
}

#[verifier::opaque]
spec fn no_or_next(b: Seq<u8>, q: int) -> bool {
    !dsl::keyword_at(b, q, text::enc("OR"@))
}

/// A bare value ends at `q`.
spec fn stops(b: Seq<u8>, q: int) -> bool {
    q == b.len() || (q < b.len() && (ByteClass::Whitespace.has(b[q]) || b[q] == ')' as u8))
}

/// Something other than white space stands at `q`.
spec fn solid(b: Seq<u8>, q: int) -> bool {
    0 <= q < b.len() && !ByteClass::Whitespace.has(b[q])
}

proof fn lemma_literals()
    ensures
        text::enc("AND"@) =~= seq!['A' as u8, 'N' as u8, 'D' as u8],
        text::enc("OR"@) =~= seq!['O' as u8, 'R' as u8],
        text::enc("NOT"@) =~= seq!['N' as u8, 'O' as u8, 'T' as u8],
        text::enc(" AND "@) =~= seq![' ' as u8, 'A' as u8, 'N' as u8, 'D' as u8, ' ' as u8],
        text::enc(" OR "@) =~= seq![' ' as u8, 'O' as u8, 'R' as u8, ' ' as u8],
        text::enc("NOT "@) =~= seq!['N' as u8, 'O' as u8, 'T' as u8, ' ' as u8],
        text::enc("("@) =~= seq!['(' as u8],
        text::enc(")"@) =~= seq![')' as u8],
{
    reveal_strlit("AND");
    reveal_strlit("OR");
    reveal_strlit("NOT");
    reveal_strlit(" AND ");
    reveal_strlit(" OR ");
    reveal_strlit("NOT ");
    reveal_strlit("(");
    reveal_strlit(")");
    text::lemma_ascii_literal("AND");
    text::lemma_ascii_literal("OR");
    text::lemma_ascii_literal("NOT");
    text::lemma_ascii_literal(" AND ");
    text::lemma_ascii_literal(" OR ");
    text::lemma_ascii_literal("NOT ");
    text::lemma_ascii_literal("(");
    text::lemma_ascii_literal(")");
}

proof fn lemma_or_parts(q: Seq<u8>, p: int, a: Seq<u8>, b: Seq<u8>)
    requires
        scan::stands(q, p, or_of(a, b)),
    ensures
        scan::stands(q, p, a),
        scan::stands(q, p + a.len(), text::enc(" OR "@)),
        scan::stands(q, p + a.len() + 4, b),
        or_of(a, b).len() == a.len() + 4 + b.len(),
{
    reveal(or_of);
    lemma_literals();
    scan::lemma_halves(q, p, a + text::enc(" OR "@), b);
    scan::lemma_halves(q, p, a, text::enc(" OR "@));
}

proof fn lemma_and_parts(q: Seq<u8>, p: int, a: Seq<u8>, b: Seq<u8>)
    requires
        scan::stands(q, p, and_of(a, b)),
    ensures
        scan::stands(q, p, a),
        scan::stands(q, p + a.len(), text::enc(" AND "@)),
        scan::stands(q, p + a.len() + 5, b),
        and_of(a, b).len() == a.len() + 5 + b.len(),
{
    reveal(and_of);
    lemma_literals();
    scan::lemma_halves(q, p, a + text::enc(" AND "@), b);
    scan::lemma_halves(q, p, a, text::enc(" AND "@));
}

proof fn lemma_not_parts(q: Seq<u8>, p: int, a: Seq<u8>)
    requires
        scan::stands(q, p, not_of(a)),
    ensures
        scan::stands(q, p, text::enc("NOT "@)),
        scan::stands(q, p + 4, a),
        not_of(a).len() == 4 + a.len(),
{
    reveal(not_of);
    lemma_literals();
    scan::lemma_halves(q, p, text::enc("NOT "@), a);
}

proof fn lemma_group_parts(q: Seq<u8>, p: int, a: Seq<u8>)
    requires
        scan::stands(q, p, group_of(a)),
    ensures
        0 <= p,
        p + a.len() + 2 <= q.len(),
        q[p] == '(' as u8,
        scan::stands(q, p + 1, a),
        q[p + 1 + a.len()] == ')' as u8,
        group_of(a).len() == a.len() + 2,
{
    reveal(group_of);
    lemma_literals();
    let open = text::enc("("@);
    let close = text::enc(")"@);
    scan::lemma_halves(q, p, open + a, close);
    scan::lemma_halves(q, p, open, a);
    reveal(scan::stands);
    assert(q[p + 0] == open[0]);
    assert(q[p + 1 + a.len() + 0] == close[0]);
}

/// A run that ends inside a text ends there wherever the text stands.
proof fn lemma_run_in(b: Seq<u8>, p: int, c: Seq<u8>, i: int, class: ByteClass)
    requires
        scan::stands(b, p, c),
        0 <= i <= c.len(),
        ({
            let e = scan::run_end(c.push(' ' as u8), i, class);
            e < c.len() || (e == c.len() && (p + e == b.len() || !class.has(b[p + e])))
        }),
    ensures
        scan::run_end(b, p + i, class) == p + scan::run_end(c.push(' ' as u8), i, class),
{
    reveal(scan::stands);
    let d = c.push(' ' as u8);
    let e = scan::run_end(d, i, class);
    scan::lemma_run_end(d, i, class);
    assert forall|k: int| p + i <= k < p + e implies class.has(#[trigger] b[k]) by {
        assert(d[k - p] == c[k - p]);
        assert(b[p + (k - p)] == c[k - p]);
    }
    if e < c.len() {
        assert(d[e] == c[e]);
        assert(b[p + e] == c[e]);
    }
    scan::lemma_run_end_at(b, p + i, p + e, class);
}

proof fn lemma_delimited_in(b: Seq<u8>, p: int, c: Seq<u8>, i: int, close: u8)
    requires
        scan::stands(b, p, c),
        0 <= i <= c.len(),
        dsl::delimited_end(c.push(' ' as u8), i, close) < c.len(),
    ensures
        dsl::delimited_end(b, p + i, close) == p + dsl::delimited_end(
            c.push(' ' as u8),
            i,
            close,
        ),
    decreases c.len() - i,
{
    reveal(scan::stands);
    let d = c.push(' ' as u8);
    dsl::lemma_delimited_end(d, i, close);
    assert(d[i] == c[i]);
    assert(b[p + i] == c[i]);
    if c[i] != close {
        if c[i] == '\\' as u8 {
            dsl::lemma_delimited_end(d, i + 2, close);
            lemma_delimited_in(b, p, c, i + 2, close);
        } else {
            lemma_delimited_in(b, p, c, i + 1, close);
        }
    }
}

/// The value of a clause ends with the clause wherever the clause stands.
proof fn lemma_value_in(b: Seq<u8>, p: int, c: Seq<u8>, v: int, op: dsl::Op)
    requires
        scan::stands(b, p, c),
        stops(b, p + c.len()),
        0 <= v < c.len(),
        dsl::value_at(c.push(' ' as u8), v, op).1 == c.len(),
    ensures
        dsl::value_at(b, p + v, op) == (
            dsl::value_at(c.push(' ' as u8), v, op).0,
            p + c.len(),
        ),
{
    reveal(scan::stands);
    let d = c.push(' ' as u8);
    assert(d[v] == c[v]);
    assert(b[p + v] == c[v]);
    if (op is Regex && c[v] == '/' as u8) || c[v] == '"' as u8 {
        dsl::lemma_delimited_end(d, v + 1, c[v]);
        let e = dsl::delimited_end(d, v + 1, c[v]);
        assert(e == c.len() - 1);
        lemma_delimited_in(b, p, c, v + 1, c[v]);
        assert(d.subrange(v + 1, e) =~= b.subrange(p + v + 1, p + e)) by {
            assert forall|k: int| 0 <= k < e - v - 1 implies d.subrange(v + 1, e)[k]
                == #[trigger] b.subrange(p + v + 1, p + e)[k] by {
                assert(b[p + (v + 1 + k)] == c[v + 1 + k]);
            }
        }
        assert(p + v + 1 == p + (v + 1));
    } else {
        let e = scan::run_end(d, v, ByteClass::BareValue);
        lemma_run_in(b, p, c, v, ByteClass::BareValue);
        assert(d.subrange(v, e) =~= b.subrange(p + v, p + e)) by {
            assert forall|k: int| 0 <= k < e - v implies d.subrange(v, e)[k] == #[trigger] b.subrange(
                p + v,
                p + e,
            )[k] by {
                assert(b[p + (v + k)] == c[v + k]);
            }
        }
    }
}

/// A clause is read wherever it stands, up to its end.
proof fn lemma_clause_in(b: Seq<u8>, p: int, c: Seq<u8>, r: Rule)
    requires
        is_clause(c, r),
        scan::stands(b, p, c),
        stops(b, p + c.len()),
    ensures
        reads_unary(b, p, r, p + c.len()),
        solid(b, p),
        c.len() > 0,
{
    reveal(scan::stands);
    reveal(is_clause);
    reveal(reads_unary);
    let d = c.push(' ' as u8);
    assert(d[0] == c[0]);
    assert(b[p + 0] == c[0]);
    assert(dsl::ws(d, 0) == 0);
    assert(dsl::ws(b, p) == p);
    let e = scan::run_end(d, 0, ByteClass::FieldName);
    scan::lemma_run_end(d, 0, ByteClass::FieldName);
    let o = dsl::ws(d, e);
    scan::lemma_run_end(d, e, ByteClass::Whitespace);
    let (op, q) = dsl::operator(d, o)->0;
    let v = dsl::ws(d, q);
    scan::lemma_run_end(d, q, ByteClass::Whitespace);
    assert(d[c.len() as int] == ' ' as u8);
    assert(v < c.len());
    lemma_run_in(b, p, c, 0, ByteClass::FieldName);
    lemma_run_in(b, p, c, e, ByteClass::Whitespace);
    assert(d[o] == c[o] && b[p + o] == c[o]);
    if o + 1 < c.len() {
        assert(d[o + 1] == c[o + 1] && b[p + (o + 1)] == c[o + 1]);
    }
    assert(dsl::operator(b, p + o) == Some((op, p + q)));
    lemma_run_in(b, p, c, q, ByteClass::Whitespace);
    lemma_value_in(b, p, c, v, op);
    assert(d.subrange(0, e) =~= b.subrange(p, p + e)) by {
        assert forall|k: int| 0 <= k < e implies d.subrange(0, e)[k] == #[trigger] b.subrange(
            p,
            p + e,
        )[k] by {
            assert(b[p + k] == c[k]);
        }
    }
    let w = scan::run_end(d, 0, ByteClass::Alpha);
    scan::lemma_run_end(d, 0, ByteClass::Alpha);
    assert(w <= e) by {
        if w > e {
            assert(ByteClass::Alpha.has(d[e]));
        }
    }
    lemma_run_in(b, p, c, 0, ByteClass::Alpha);
    lemma_white_in(d, 0, 0);
    lemma_white_in(b, p, p);
    assert(dsl::word(b, p) =~= dsl::word(d, 0)) by {
        assert forall|k: int| 0 <= k < w implies dsl::word(d, 0)[k] == #[trigger] dsl::word(
            b,
            p,
        )[k] by {
            assert(b[p + k] == c[k]);
        }
    }
    assert(reads(dsl::clause(b, p), r, p + c.len()));
    assert(ByteClass::FieldName.has(d[0]));
    assert(dsl::atom(b, p) == dsl::clause(b, p));
}

/// Behind ASCII white space, a byte of ASCII that is none is where a word
/// would start.
proof fn lemma_white_in(b: Seq<u8>, q: int, i: int)
    requires
        0 <= q <= i <= b.len(),
        forall|k: int| q <= k < i ==> ByteClass::Whitespace.has(#[trigger] b[k]),
        i < b.len() ==> b[i] < 0x80 && !text::is_white_scalar(b[i] as u32),
    ensures
        text::past_white(b, q) == i,
    decreases i - q,
{
    if q < i {
        text::lemma_ascii_white(b, q);
        lemma_white_in(b, q + 1, i);
    } else if i < b.len() {
        text::lemma_ascii_white(b, i);
    }
}

/// `NOT ` before what is read.
proof fn lemma_not_in(b: Seq<u8>, p: int, r: Rule, e: int)
    requires
        scan::stands(b, p, text::enc("NOT "@)),
        solid(b, p + 4),
        reads_unary(b, p + 4, r, e),
    ensures
        reads_unary(b, p, negated(r), e),
        solid(b, p),
{
    reveal(scan::stands);
    reveal(reads_unary);
    lemma_literals();
    let n = text::enc("NOT "@);
    assert(b[p + 0] == n[0] && b[p + 1] == n[1] && b[p + 2] == n[2] && b[p + 3] == n[3]);
    lemma_white_in(b, p, p);
    scan::lemma_run_end_at(b, p, p, ByteClass::Whitespace);
    scan::lemma_run_end_at(b, p, p + 3, ByteClass::Alpha);
    scan::lemma_run_end_at(b, p + 3, p + 4, ByteClass::Whitespace);
    assert(dsl::word(b, p) =~= text::enc("NOT"@));
}

/// The keyword behind what was read, from `i` on, and the start of what
/// follows it.
proof fn lemma_keyword_in(b: Seq<u8>, q: int, i: int, word: Seq<u8>)
    requires
        0 <= q <= i,
        forall|k: int| q <= k < i ==> ByteClass::Whitespace.has(#[trigger] b[k]),
        scan::stands(b, i, word),
        word.len() > 0,
        forall|k: int| 0 <= k < word.len() ==> scan::is_alpha(#[trigger] word[k]),
        i + word.len() < b.len(),
        b[i + word.len()] == ' ' as u8,
        solid(b, i + word.len() + 1),
    ensures
        dsl::keyword_at(b, q, word),
        dsl::past_word(b, q, word.len() as int) == i + word.len() + 1,
{
    reveal(scan::stands);
    let n = word.len() as int;
    assert(b[i + 0] == word[0]);
    lemma_white_in(b, q, i);
    scan::lemma_run_end_at(b, q, i, ByteClass::Whitespace);
    assert forall|k: int| i <= k < i + n implies ByteClass::Alpha.has(#[trigger] b[k]) by {
        assert(b[i + (k - i)] == word[k - i]);
    }
    scan::lemma_run_end_at(b, i, i + n, ByteClass::Alpha);
    scan::lemma_run_end_at(b, i + n, i + n + 1, ByteClass::Whitespace);
    assert(dsl::word(b, q) =~= word) by {
        assert forall|k: int| 0 <= k < n implies dsl::word(b, q)[k] == #[trigger] word[k] by {
            assert(b[i + k] == word[k]);
        }
    }
}

/// ` AND ` behind what was read.
proof fn lemma_and_word(b: Seq<u8>, q: int)
    requires
        scan::stands(b, q, text::enc(" AND "@)),
        solid(b, q + 5),
    ensures
        and_next(b, q, q + 5),
        stops(b, q),
{
    reveal(scan::stands);
    reveal(and_next);
    lemma_literals();
    let s = text::enc(" AND "@);
    assert(b[q + 0] == s[0] && b[q + 1] == s[1] && b[q + 2] == s[2] && b[q + 3] == s[3] && b[q + 4]
        == s[4]);
    lemma_keyword_in(b, q, q + 1, text::enc("AND"@));
}

/// `AND ` behind white space that was already stepped over.
proof fn lemma_and_word_near(b: Seq<u8>, q: int)
    requires
        scan::stands(b, q, text::enc(" AND "@)),
        solid(b, q + 5),
    ensures
        and_next(b, q + 1, q + 5),
        ByteClass::Whitespace.has(b[q]),
        solid(b, q + 1),
{
    reveal(scan::stands);
    reveal(and_next);
    lemma_literals();
    let s = text::enc(" AND "@);
    assert(b[q + 0] == s[0] && b[q + 1] == s[1] && b[q + 2] == s[2] && b[q + 3] == s[3] && b[q + 4]
        == s[4]);
    lemma_keyword_in(b, q + 1, q + 1, text::enc("AND"@));
}

/// ` OR ` behind what was read.
proof fn lemma_or_word(b: Seq<u8>, q: int)
    requires
        scan::stands(b, q, text::enc(" OR "@)),
        solid(b, q + 4),
    ensures
        or_next(b, q, q + 4),
        no_and_next(b, q),
        stops(b, q),
{
    reveal(scan::stands);
    reveal(or_next);
    reveal(no_and_next);
    lemma_literals();
    let s = text::enc(" OR "@);
    assert(b[q + 0] == s[0] && b[q + 1] == s[1] && b[q + 2] == s[2] && b[q + 3] == s[3]);
    lemma_keyword_in(b, q, q + 1, text::enc("OR"@));
}

/// No keyword at the end, nor before a closing bracket.
proof fn lemma_no_word(b: Seq<u8>, q: int)
    requires
        0 <= q <= b.len(),
        q < b.len() ==> b[q] == ')' as u8,
    ensures
        no_and_next(b, q),
        no_or_next(b, q),
        stops(b, q),
{
    reveal(no_and_next);
    reveal(no_or_next);
    lemma_literals();
    lemma_white_in(b, q, q);
    assert(dsl::word(b, q).len() == 0);
}

/// Two readings joined by `AND`.
proof fn lemma_and_in(b: Seq<u8>, p: int, r: Rule, q: int, start: int, s: Rule, e: int)
    requires
        reads_unary(b, p, r, q),
        p < q < start,
        and_next(b, q, start),
        reads_unary(b, start, s, e),
        start < e <= b.len(),
        no_and_next(b, e),
    ensures
        reads_and(b, p, (Rule::All { parts: seq![r, s] }), e),
{
    reveal(reads_unary);
    reveal(reads_and);
    reveal(and_next);
    reveal(no_and_next);
    assert(seq![r].push(s) =~= seq![r, s]);
    assert(reads(dsl::and_tail(b, e, seq![r, s]), (Rule::All { parts: seq![r, s] }), e));
    assert(dsl::and_tail(b, q, seq![r]) == dsl::and_tail(b, e, seq![r].push(s)));
}

/// Two readings joined by `OR`.
proof fn lemma_or_in(b: Seq<u8>, p: int, r: Rule, q: int, start: int, s: Rule, e: int)
    requires
        reads_and(b, p, r, q),
        p < q < start,
        or_next(b, q, start),
        reads_and(b, start, s, e),
        start < e <= b.len(),
        no_or_next(b, e),
    ensures
        reads_or(b, p, (Rule::Any { parts: seq![r, s] }), e),
{
    reveal(reads_and);
    reveal(reads_or);
    reveal(or_next);
    reveal(no_or_next);
    assert(seq![r].push(s) =~= seq![r, s]);
    assert(reads(dsl::or_tail(b, e, seq![r, s]), (Rule::Any { parts: seq![r, s] }), e));
    assert(dsl::or_tail(b, q, seq![r]) == dsl::or_tail(b, e, seq![r].push(s)));
}

/// A unary without `AND` behind it.
proof fn lemma_lone_unary(b: Seq<u8>, p: int, r: Rule, e: int)
    requires
        reads_unary(b, p, r, e),
        no_and_next(b, e),
    ensures
        reads_and(b, p, r, e),
{
    reveal(reads_unary);
    reveal(reads_and);
    reveal(no_and_next);
}

/// A conjunction without `OR` behind it.
proof fn lemma_lone_and(b: Seq<u8>, p: int, r: Rule, e: int)
    requires
        reads_and(b, p, r, e),
        no_or_next(b, e),
    ensures
        reads_or(b, p, r, e),
{
    reveal(reads_and);
    reveal(reads_or);
    reveal(no_or_next);
}

/// A reading in brackets.
proof fn lemma_group_in(b: Seq<u8>, p: int, r: Rule, e: int)
    requires
        0 <= p < e < b.len(),
        b[p] == '(' as u8,
        solid(b, p + 1),
        reads_or(b, p + 1, r, e),
        b[e] == ')' as u8,
    ensures
        e + 1 == b.len() ==> reads_unary(b, p, r, e + 1),
        solid(b, e + 2) && ByteClass::Whitespace.has(b[e + 1]) ==> reads_unary(b, p, r, e + 2),
        solid(b, p),
{
    reveal(reads_unary);
    reveal(reads_or);
    lemma_literals();
    assert(dsl::ws(b, p) == p);
    assert(dsl::ws(b, p + 1) == p + 1);
    assert(dsl::ws(b, e) == e);
    lemma_white_in(b, p, p);
    assert(dsl::word(b, p).len() == 0);
    if solid(b, e + 2) && ByteClass::Whitespace.has(b[e + 1]) {
        scan::lemma_run_end_at(b, e + 1, e + 2, ByteClass::Whitespace);
    }
    assert(reads(dsl::atom(b, p), r, dsl::ws(b, e + 1)));
}

/// A whole query.
proof fn lemma_query_in(b: Seq<u8>, r: Rule)
    requires
        solid(b, 0),
        reads_or(b, 0, r, b.len() as int),
    ensures
        dsl::query(b) == Ok::<Rule, Seq<char>>(r),
{
    reveal(reads_or);
    assert(dsl::ws(b, 0) == 0);
    assert(dsl::ws(b, b.len() as int) == b.len());
}

/// A clause is a query.
pub proof fn law_clause_is_a_query(a: Seq<u8>, ra: Rule)
    requires
        is_clause(a, ra),
    ensures
        dsl::query(a) == Ok::<Rule, Seq<char>>(ra),
{
    scan::lemma_whole(a);
    lemma_no_word(a, a.len() as int);
    lemma_clause_in(a, 0, a, ra);
    lemma_lone_unary(a, 0, ra, a.len() as int);
    lemma_lone_and(a, 0, ra, a.len() as int);
    lemma_query_in(a, ra);
}

/// `AND` binds tighter than `OR`: `a OR b AND c` is `a OR (b AND c)`.
pub proof fn law_and_binds_tighter_than_or(
    a: Seq<u8>,
    ra: Rule,
    b: Seq<u8>,
    rb: Rule,
    c: Seq<u8>,
    rc: Rule,
)
    requires
        is_clause(a, ra),
        is_clause(b, rb),
        is_clause(c, rc),
    ensures
        dsl::query(or_of(a, and_of(b, c))) == Ok::<Rule, Seq<char>>(
            Rule::Any { parts: seq![ra, Rule::All { parts: seq![rb, rc] }] },
        ),
        dsl::query(or_of(a, group_of(and_of(b, c)))) == dsl::query(or_of(a, and_of(b, c))),
{
    lemma_bare_and(a, ra, b, rb, c, rc);
    lemma_grouped_and(a, ra, b, rb, c, rc);
}

proof fn lemma_bare_and(a: Seq<u8>, ra: Rule, b: Seq<u8>, rb: Rule, c: Seq<u8>, rc: Rule)
    requires
        is_clause(a, ra),
        is_clause(b, rb),
        is_clause(c, rc),
    ensures
        dsl::query(or_of(a, and_of(b, c))) == Ok::<Rule, Seq<char>>(
            Rule::Any { parts: seq![ra, Rule::All { parts: seq![rb, rc] }] },
        ),
{
    let q = or_of(a, and_of(b, c));
    let pb: int = a.len() as int + 4;
    let pc: int = pb + b.len() + 5;
    let all = Rule::All { parts: seq![rb, rc] };
    scan::lemma_whole(q);
    lemma_or_parts(q, 0, a, and_of(b, c));
    lemma_and_parts(q, pb, b, c);
    lemma_no_word(q, q.len() as int);
    lemma_clause_in(q, pc, c, rc);
    lemma_and_word(q, pb + b.len());
    lemma_clause_in(q, pb, b, rb);
    lemma_and_in(q, pb, rb, pb + b.len(), pc, rc, q.len() as int);
    lemma_or_word(q, a.len() as int);
    lemma_clause_in(q, 0, a, ra);
    lemma_lone_unary(q, 0, ra, a.len() as int);
    lemma_or_in(q, 0, ra, a.len() as int, pb, all, q.len() as int);
    lemma_query_in(q, Rule::Any { parts: seq![ra, all] });
}

proof fn lemma_grouped_and(a: Seq<u8>, ra: Rule, b: Seq<u8>, rb: Rule, c: Seq<u8>, rc: Rule)
    requires
        is_clause(a, ra),
        is_clause(b, rb),
        is_clause(c, rc),
    ensures
        dsl::query(or_of(a, group_of(and_of(b, c)))) == Ok::<Rule, Seq<char>>(
            Rule::Any { parts: seq![ra, Rule::All { parts: seq![rb, rc] }] },
        ),
{
    let q = or_of(a, group_of(and_of(b, c)));
    let pg: int = a.len() as int + 4;
    let pb: int = pg + 1;
    let pc: int = pb + b.len() + 5;
    let close: int = pc + c.len();
    let all = Rule::All { parts: seq![rb, rc] };
    scan::lemma_whole(q);
    lemma_or_parts(q, 0, a, group_of(and_of(b, c)));
    lemma_group_parts(q, pg, and_of(b, c));
    lemma_and_parts(q, pb, b, c);
    lemma_no_word(q, close);
    lemma_clause_in(q, pc, c, rc);
    lemma_and_word(q, pb + b.len());
    lemma_clause_in(q, pb, b, rb);
    lemma_and_in(q, pb, rb, pb + b.len(), pc, rc, close);
    lemma_lone_and(q, pb, all, close);
    lemma_group_in(q, pg, all, close);
    lemma_no_word(q, q.len() as int);
    lemma_lone_unary(q, pg, all, q.len() as int);
    lemma_or_word(q, a.len() as int);
    lemma_clause_in(q, 0, a, ra);
    lemma_lone_unary(q, 0, ra, a.len() as int);
    lemma_or_in(q, 0, ra, a.len() as int, pg, all, q.len() as int);
    lemma_query_in(q, Rule::Any { parts: seq![ra, all] });
}

/// `NOT` binds tighter than `AND`: `NOT a AND b` is `(NOT a) AND b`.
pub proof fn law_not_binds_tighter_than_and(a: Seq<u8>, ra: Rule, b: Seq<u8>, rb: Rule)
    requires
        is_clause(a, ra),
        is_clause(b, rb),
    ensures
        dsl::query(and_of(not_of(a), b)) == Ok::<Rule, Seq<char>>(
            Rule::All { parts: seq![negated(ra), rb] },
        ),
        dsl::query(and_of(group_of(not_of(a)), b)) == dsl::query(and_of(not_of(a), b)),
{
    lemma_bare_not(a, ra, b, rb);
    lemma_grouped_not(a, ra, b, rb);
}

proof fn lemma_bare_not(a: Seq<u8>, ra: Rule, b: Seq<u8>, rb: Rule)
    requires
        is_clause(a, ra),
        is_clause(b, rb),
    ensures
        dsl::query(and_of(not_of(a), b)) == Ok::<Rule, Seq<char>>(
            Rule::All { parts: seq![negated(ra), rb] },
        ),
{
    let q = and_of(not_of(a), b);
    let end: int = 4 + a.len() as int;
    scan::lemma_whole(q);
    lemma_and_parts(q, 0, not_of(a), b);
    lemma_not_parts(q, 0, a);
    lemma_no_word(q, q.len() as int);
    lemma_clause_in(q, end + 5, b, rb);
    lemma_and_word(q, end);
    lemma_clause_in(q, 4, a, ra);
    lemma_not_in(q, 0, ra, end);
    lemma_and_in(q, 0, negated(ra), end, end + 5, rb, q.len() as int);
    lemma_lone_and(q, 0, Rule::All { parts: seq![negated(ra), rb] }, q.len() as int);
    lemma_query_in(q, Rule::All { parts: seq![negated(ra), rb] });
}

proof fn lemma_grouped_not(a: Seq<u8>, ra: Rule, b: Seq<u8>, rb: Rule)
    requires
        is_clause(a, ra),
        is_clause(b, rb),
    ensures
        dsl::query(and_of(group_of(not_of(a)), b)) == Ok::<Rule, Seq<char>>(
            Rule::All { parts: seq![negated(ra), rb] },
        ),
{
    let q = and_of(group_of(not_of(a)), b);
    let close: int = 5 + a.len() as int;
    let pb: int = close + 6;
    scan::lemma_whole(q);
    lemma_and_parts(q, 0, group_of(not_of(a)), b);
    lemma_group_parts(q, 0, not_of(a));
    lemma_not_parts(q, 1, a);
    lemma_no_word(q, q.len() as int);
    lemma_clause_in(q, pb, b, rb);
    lemma_no_word(q, close);
    lemma_clause_in(q, 5, a, ra);
    lemma_not_in(q, 1, ra, close);
    lemma_lone_unary(q, 1, negated(ra), close);
    lemma_lone_and(q, 1, negated(ra), close);
    lemma_and_word_near(q, close + 1);
    lemma_group_in(q, 0, negated(ra), close);
    lemma_and_in(q, 0, negated(ra), close + 2, pb, rb, q.len() as int);
    lemma_lone_and(q, 0, Rule::All { parts: seq![negated(ra), rb] }, q.len() as int);
    lemma_query_in(q, Rule::All { parts: seq![negated(ra), rb] });
}

/// `NOT NOT a` selects what `a` selects.
pub proof fn law_not_not_selects_the_same(a: Seq<u8>, ra: Rule)
    requires
        is_clause(a, ra),
    ensures
        dsl::query(not_of(not_of(a))) == Ok::<Rule, Seq<char>>(negated(negated(ra))),
        same_records(negated(negated(ra)), ra),
{
    let q = not_of(not_of(a));
    scan::lemma_whole(q);
    lemma_not_parts(q, 0, not_of(a));
    lemma_not_parts(q, 4, a);
    lemma_no_word(q, q.len() as int);
    lemma_clause_in(q, 8, a, ra);
    lemma_not_in(q, 4, ra, q.len() as int);
    lemma_not_in(q, 0, negated(ra), q.len() as int);
    lemma_lone_unary(q, 0, negated(negated(ra)), q.len() as int);
    lemma_lone_and(q, 0, negated(negated(ra)), q.len() as int);
    lemma_query_in(q, negated(negated(ra)));
    assert forall|ts: i64, sev: u8, dialect: Dialect, line: Seq<u8>| #[trigger]
        negated(negated(ra)).holds(ts, sev, dialect, line) == ra.holds(ts, sev, dialect, line) by {
        lemma_negated(negated(ra), ts, sev, dialect, line);
        lemma_negated(ra, ts, sev, dialect, line);
    }
}

proof fn lemma_negated(r: Rule, ts: i64, sev: u8, dialect: Dialect, line: Seq<u8>)
    ensures
        negated(r).holds(ts, sev, dialect, line) == !r.holds(ts, sev, dialect, line),
{
}

/// `a OR b` selects what `NOT (NOT a AND NOT b)` selects.
pub proof fn law_or_by_and(a: Seq<u8>, ra: Rule, b: Seq<u8>, rb: Rule)
    requires
        is_clause(a, ra),
        is_clause(b, rb),
    ensures
        dsl::query(or_of(a, b)) == Ok::<Rule, Seq<char>>(Rule::Any { parts: seq![ra, rb] }),
        dsl::query(not_of(group_of(and_of(not_of(a), not_of(b))))) == Ok::<Rule, Seq<char>>(
            negated(Rule::All { parts: seq![negated(ra), negated(rb)] }),
        ),
        same_records(
            Rule::Any { parts: seq![ra, rb] },
            negated(Rule::All { parts: seq![negated(ra), negated(rb)] }),
        ),
{
    lemma_plain_or(a, ra, b, rb);
    lemma_neither(a, ra, b, rb);
    let any = Rule::Any { parts: seq![ra, rb] };
    let all = Rule::All { parts: seq![negated(ra), negated(rb)] };
    assert forall|ts: i64, sev: u8, dialect: Dialect, line: Seq<u8>| #[trigger]
        any.holds(ts, sev, dialect, line) == negated(all).holds(ts, sev, dialect, line) by {
        lemma_de_morgan(ra, rb, ts, sev, dialect, line);
    }
}

proof fn lemma_de_morgan(
    ra: Rule,
    rb: Rule,
    ts: i64,
    sev: u8,
    dialect: Dialect,
    line: Seq<u8>,
)
    ensures
        (Rule::Any { parts: seq![ra, rb] }).holds(ts, sev, dialect, line) == negated(
            Rule::All { parts: seq![negated(ra), negated(rb)] },
        ).holds(ts, sev, dialect, line),
{
    let ors = seq![ra, rb];
    let ands = seq![negated(ra), negated(rb)];
    predicate::lemma_any_holds(ors, ts, sev, dialect, line);
    predicate::lemma_all_holds(ands, ts, sev, dialect, line);
    lemma_negated(ra, ts, sev, dialect, line);
    lemma_negated(rb, ts, sev, dialect, line);
    lemma_negated(Rule::All { parts: ands }, ts, sev, dialect, line);
    assert(ors[0] == ra && ors[1] == rb);
    assert(ands[0] == negated(ra) && ands[1] == negated(rb));
    if ra.holds(ts, sev, dialect, line) {
        assert(ors[0].holds(ts, sev, dialect, line));
        assert(!ands[0].holds(ts, sev, dialect, line));
    } else if rb.holds(ts, sev, dialect, line) {
        assert(ors[1].holds(ts, sev, dialect, line));
        assert(!ands[1].holds(ts, sev, dialect, line));
    }
}

proof fn lemma_plain_or(a: Seq<u8>, ra: Rule, b: Seq<u8>, rb: Rule)
    requires
        is_clause(a, ra),
        is_clause(b, rb),
    ensures
        dsl::query(or_of(a, b)) == Ok::<Rule, Seq<char>>(Rule::Any { parts: seq![ra, rb] }),
{
    let q = or_of(a, b);
    let pb: int = a.len() as int + 4;
    scan::lemma_whole(q);
    lemma_or_parts(q, 0, a, b);
    lemma_no_word(q, q.len() as int);
    lemma_clause_in(q, pb, b, rb);
    lemma_lone_unary(q, pb, rb, q.len() as int);
    lemma_or_word(q, a.len() as int);
    lemma_clause_in(q, 0, a, ra);
    lemma_lone_unary(q, 0, ra, a.len() as int);
    lemma_or_in(q, 0, ra, a.len() as int, pb, rb, q.len() as int);
    lemma_query_in(q, Rule::Any { parts: seq![ra, rb] });
}

proof fn lemma_neither(a: Seq<u8>, ra: Rule, b: Seq<u8>, rb: Rule)
    requires
        is_clause(a, ra),
        is_clause(b, rb),
    ensures
        dsl::query(not_of(group_of(and_of(not_of(a), not_of(b))))) == Ok::<Rule, Seq<char>>(
            negated(Rule::All { parts: seq![negated(ra), negated(rb)] }),
        ),
{
    let q = not_of(group_of(and_of(not_of(a), not_of(b))));
    let pa: int = 9;
    let end: int = pa + a.len();
    let pn: int = end + 5;
    let pb: int = pn + 4;
    let close: int = pb + b.len();
    let all = Rule::All { parts: seq![negated(ra), negated(rb)] };
    scan::lemma_whole(q);
    lemma_not_parts(q, 0, group_of(and_of(not_of(a), not_of(b))));
    lemma_group_parts(q, 4, and_of(not_of(a), not_of(b)));
    lemma_and_parts(q, 5, not_of(a), not_of(b));
    lemma_not_parts(q, 5, a);
    lemma_not_parts(q, pn, b);
    lemma_no_word(q, close);
    lemma_clause_in(q, pb, b, rb);
    lemma_not_in(q, pn, rb, close);
    lemma_and_word(q, end);
    lemma_clause_in(q, pa, a, ra);
    lemma_not_in(q, 5, ra, end);
    lemma_and_in(q, 5, negated(ra), end, pn, negated(rb), close);
    lemma_lone_and(q, 5, all, close);
    lemma_group_in(q, 4, all, close);
    lemma_no_word(q, q.len() as int);
    lemma_not_in(q, 0, all, q.len() as int);
    lemma_lone_unary(q, 0, negated(all), q.len() as int);
    lemma_lone_and(q, 0, negated(all), q.len() as int);
    lemma_query_in(q, negated(all));
}

} // verus!
