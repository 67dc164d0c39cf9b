//! What a single clause of a query selects, from the bytes of the query to the
//! records that it lets through.

use vstd::prelude::*;

use crate::engine::dsl;
use crate::engine::dsl::Op;
use crate::engine::format::Dialect;
use crate::engine::parse;
use crate::engine::precedence;
use crate::engine::predicate::Rule;
use crate::engine::record::TS_UNTIMED;
use crate::pattern;
use crate::scan;
use crate::scan::ByteClass;
use crate::text;

verus! {

/// Whether a query lets a record through; nothing when it is no query.
#[verifier::opaque]
pub open spec fn selects(
    query: Seq<u8>,
    ts: i64,
    sev: u8,
    dialect: Dialect,
    line: Seq<u8>,
) -> Option<bool> {
    match dsl::query(query) {
        Ok(r) => Some(r.holds(ts, sev, dialect, line)),
        Err(_) => None,
    }
}

/// How a value is written: as it is, in double quotes, or between slashes.
pub enum Writing {
    Bare,
    InQuotes,
    InSlashes,
}

/// A value as it stands in a query.
pub open spec fn written_value(value: Seq<char>, w: Writing) -> Seq<u8> {
    match w {
        Writing::Bare => text::enc(value),
        Writing::InQuotes => seq!['"' as u8] + (text::enc(value) + seq!['"' as u8]),
        Writing::InSlashes => seq!['/' as u8] + (text::enc(value) + seq!['/' as u8]),
    }
}

/// A value can be written so: bare, it holds no white space and no closing
/// bracket and does not start like another writing or like an operator's second
/// byte; else it holds neither its delimiter nor a backslash.
pub open spec fn is_writable(value: Seq<char>, w: Writing) -> bool {
    let b = text::enc(value);
    match w {
        Writing::Bare => {
            &&& b.len() > 0
            &&& b[0] != '"' as u8 && b[0] != '/' as u8 && b[0] != '=' as u8
            &&& forall|k: int| 0 <= k < b.len() ==> ByteClass::BareValue.has(#[trigger] b[k])
        },
        Writing::InQuotes => forall|k: int|
            0 <= k < b.len() ==> #[trigger] b[k] != '"' as u8 && b[k] != '\\' as u8,
        Writing::InSlashes => forall|k: int|
            0 <= k < b.len() ==> #[trigger] b[k] != '/' as u8 && b[k] != '\\' as u8,
    }
}

/// A name that a query can give for a field, and that is no keyword.
pub open spec fn is_field_name(name: Seq<char>) -> bool {
    let b = text::enc(name);
    &&& b.len() > 0
    &&& forall|k: int| 0 <= k < b.len() ==> ByteClass::FieldName.has(#[trigger] b[k])
    &&& !dsl::is_keyword(dsl::word(b, 0))
}

/// A clause as it stands in a query.
pub open spec fn written_clause(field: Seq<char>, op: Seq<u8>, value: Seq<char>, w: Writing) -> Seq<
    u8,
> {
    text::enc(field) + (op + written_value(value, w))
}

proof fn lemma_delimited(d: Seq<u8>, i: int, v: Seq<u8>, close: u8)
    requires
        scan::stands(d, i, v + seq![close]),
        forall|k: int| 0 <= k < v.len() ==> #[trigger] v[k] != close && v[k] != '\\' as u8,
    ensures
        dsl::delimited_end(d, i, close) == i + v.len(),
    decreases v.len(),
{
    let end = seq![close];
    if v.len() == 0 {
        assert(v + end =~= end);
        scan::lemma_stands_byte(d, i, end, 0);
    } else {
        let one = seq![v[0]];
        let rest = v.skip(1);
        assert(v + end =~= one + (rest + end));
        scan::lemma_halves(d, i, one, rest + end);
        scan::lemma_stands_byte(d, i, one, 0);
        assert forall|k: int| 0 <= k < rest.len() implies #[trigger] rest[k] != close && rest[k]
            != '\\' as u8 by {
            assert(rest[k] == v[k + 1]);
        }
        lemma_delimited(d, i + 1, rest, close);
    }
}

/// The value of a written clause, with a space behind it.
proof fn lemma_value(d: Seq<u8>, p: int, op: Op, value: Seq<char>, w: Writing)
    requires
        is_writable(value, w),
        w is InSlashes ==> op is Regex,
        scan::stands(d, p, written_value(value, w) + seq![' ' as u8]),
    ensures
        0 <= p < d.len(),
        !ByteClass::Whitespace.has(d[p]),
        w is Bare ==> d[p] != '=' as u8,
        dsl::value_at(d, p, op) == (value, p + written_value(value, w).len()),
{
    let v = text::enc(value);
    let sp = seq![' ' as u8];
    let whole = written_value(value, w);
    text::lemma_lossy_of_text(value);
    scan::lemma_halves(d, p, whole, sp);
    scan::lemma_stands_byte(d, p + whole.len(), sp, 0);
    match w {
        Writing::Bare => {
            scan::lemma_stands_byte(d, p, v, 0);
            assert(ByteClass::BareValue.has(v[0]));
            scan::lemma_stands_run(d, p, v, ByteClass::BareValue);
            scan::lemma_stands_subrange(d, p, v);
        },
        Writing::InQuotes => {
            let q = seq!['"' as u8];
            scan::lemma_halves(d, p, q, v + q);
            scan::lemma_stands_byte(d, p, q, 0);
            lemma_delimited(d, p + 1, v, '"' as u8);
            scan::lemma_halves(d, p + 1, v, q);
            scan::lemma_stands_subrange(d, p + 1, v);
        },
        Writing::InSlashes => {
            let q = seq!['/' as u8];
            scan::lemma_halves(d, p, q, v + q);
            scan::lemma_stands_byte(d, p, q, 0);
            lemma_delimited(d, p + 1, v, '/' as u8);
            scan::lemma_halves(d, p + 1, v, q);
            scan::lemma_stands_subrange(d, p + 1, v);
        },
    }
}

/// The bytes that an operator is written with.
pub open spec fn is_written(op: Op, b: Seq<u8>) -> bool {
    match op {
        Op::Eq => b == seq!['=' as u8],
        Op::Ne => b == seq!['!' as u8, '=' as u8],
        Op::Regex => b == seq!['~' as u8],
        Op::Gt => b == seq!['>' as u8],
        Op::Ge => b == seq!['>' as u8, '=' as u8],
        Op::Lt => b == seq!['<' as u8],
        Op::Le => b == seq!['<' as u8, '=' as u8],
    }
}

proof fn lemma_operator(d: Seq<u8>, e: int, op: Op, b: Seq<u8>)
    requires
        is_written(op, b),
        scan::stands(d, e, b),
        e + b.len() < d.len(),
        d[e + b.len()] != '=' as u8,
    ensures
        dsl::operator(d, e) == Some((op, e + b.len())),
        0 <= e < d.len(),
        !ByteClass::FieldName.has(d[e]),
        !ByteClass::Alpha.has(d[e]),
        !ByteClass::Whitespace.has(d[e]),
{
    scan::lemma_stands_byte(d, e, b, 0);
    if b.len() > 1 {
        scan::lemma_stands_byte(d, e, b, 1);
    }
}

/// The field name of a clause, and the word that it starts with.
proof fn lemma_field(d: Seq<u8>, field: Seq<char>)
    requires
        is_field_name(field),
        scan::stands(d, 0, text::enc(field)),
        text::enc(field).len() < d.len(),
        !ByteClass::FieldName.has(d[text::enc(field).len() as int]),
        !ByteClass::Alpha.has(d[text::enc(field).len() as int]),
    ensures
        dsl::ws(d, 0) == 0,
        scan::run_end(d, 0, ByteClass::FieldName) == text::enc(field).len(),
        text::piece(d, 0, text::enc(field).len() as int) == field,
        !dsl::is_keyword(dsl::word(d, 0)),
{
    let f = text::enc(field);
    text::lemma_lossy_of_text(field);
    scan::lemma_stands_byte(d, 0, f, 0);
    assert(ByteClass::FieldName.has(f[0]));
    scan::lemma_run_end_at(d, 0, 0, ByteClass::Whitespace);
    scan::lemma_stands_run(d, 0, f, ByteClass::FieldName);
    scan::lemma_stands_subrange(d, 0, f);
    text::lemma_ascii_white(d, 0);
    text::lemma_ascii_white(f, 0);
    assert(text::past_white(d, 0) == 0);
    assert(text::past_white(f, 0) == 0);
    let w = scan::run_end(f, 0, ByteClass::Alpha);
    scan::lemma_run_end(f, 0, ByteClass::Alpha);
    assert forall|k: int| 0 <= k < w implies ByteClass::Alpha.has(#[trigger] d[k]) by {
        assert(ByteClass::Alpha.has(f[k]));
        scan::lemma_stands_byte(d, 0, f, k);
    }
    if w < f.len() {
        scan::lemma_stands_byte(d, 0, f, w);
    }
    scan::lemma_run_end_at(d, 0, w, ByteClass::Alpha);
    assert(dsl::word(d, 0) =~= dsl::word(f, 0)) by {
        assert forall|k: int| 0 <= k < w implies dsl::word(d, 0)[k] == #[trigger] dsl::word(f, 0)[k]
            by {
            scan::lemma_stands_byte(d, 0, f, k);
        }
    }
}

/// A written clause is read as what it says.
proof fn lemma_clause(field: Seq<char>, op: Op, b: Seq<u8>, value: Seq<char>, w: Writing, r: Rule)
    requires
        is_field_name(field),
        is_written(op, b),
        is_writable(value, w),
        w is InSlashes ==> op is Regex,
        dsl::clause_rule(field, op, value) == Ok::<Rule, Seq<char>>(r),
    ensures
        precedence::is_clause(written_clause(field, b, value, w), r),
        forall|ts: i64, sev: u8, dialect: Dialect, line: Seq<u8>| #[trigger]
            selects(written_clause(field, b, value, w), ts, sev, dialect, line) == Some(
                r.holds(ts, sev, dialect, line),
            ),
{
    let f = text::enc(field);
    let v = written_value(value, w);
    let c = written_clause(field, b, value, w);
    let sp = seq![' ' as u8];
    let d = c.push(' ' as u8);
    assert(d =~= f + (b + (v + sp)));
    scan::lemma_whole(d);
    scan::lemma_halves(d, 0, f, b + (v + sp));
    let e: int = f.len() as int;
    scan::lemma_halves(d, e, b, v + sp);
    lemma_value(d, e + b.len(), op, value, w);
    if !(w is Bare) {
        assert(d[e + b.len()] != '=' as u8) by {
            scan::lemma_halves(d, e + b.len(), v, sp);
            scan::lemma_stands_byte(d, e + b.len(), v, 0);
        }
    }
    lemma_operator(d, e, op, b);
    lemma_field(d, field);
    scan::lemma_run_end_at(d, e, e, ByteClass::Whitespace);
    scan::lemma_run_end_at(d, e + b.len(), e + b.len(), ByteClass::Whitespace);
    scan::lemma_stands_byte(d, 0, f, 0);
    assert(ByteClass::FieldName.has(f[0]));
    assert(c[0] == d[0]);
    reveal(precedence::is_clause);
    precedence::law_clause_is_a_query(c, r);
    reveal(selects);
}

/// What the bounds ask of a record.
proof fn lemma_bounds(value: Seq<char>, ts: i64, sev: u8, dialect: Dialect, line: Seq<u8>)
    requires
        parse::partial_rfc3339(value) is Some,
    ensures
        ({
            let t = parse::partial_rfc3339(value)->0;
            let timed = ts != TS_UNTIMED;
            &&& dsl::clause_rule("ts"@, Op::Lt, value) matches Ok(r) && r.holds(
                ts,
                sev,
                dialect,
                line,
            ) == (timed && ts < t)
            &&& dsl::clause_rule("ts"@, Op::Le, value) matches Ok(r) && r.holds(
                ts,
                sev,
                dialect,
                line,
            ) == (timed && ts <= t)
            &&& dsl::clause_rule("ts"@, Op::Gt, value) matches Ok(r) && r.holds(
                ts,
                sev,
                dialect,
                line,
            ) == (timed && ts > t)
            &&& dsl::clause_rule("ts"@, Op::Ge, value) matches Ok(r) && r.holds(
                ts,
                sev,
                dialect,
                line,
            ) == (timed && ts >= t)
        }),
{
    let b = text::enc(text::trimmed(value));
    parse::lemma_rfc3339_range(b + parse::padding(b.len()));
}

/// A bound on `ts` selects the timed records on its side of the instant that
/// its text stands for: `<` those before it, `<=` those before it or at it, `>`
/// those after it, and `>=` those after it or at it. An untimed record is on no
/// side.
pub proof fn law_time_bounds_select_their_side(
    value: Seq<char>,
    w: Writing,
    ts: i64,
    sev: u8,
    dialect: Dialect,
    line: Seq<u8>,
)
    requires
        is_writable(value, w),
        !(w is InSlashes),
        parse::partial_rfc3339(value) is Some,
    ensures
        ({
            let t = parse::partial_rfc3339(value)->0;
            let timed = ts != TS_UNTIMED;
            &&& selects(
                written_clause("ts"@, seq!['<' as u8], value, w),
                ts,
                sev,
                dialect,
                line,
            ) == Some(timed && ts < t)
            &&& selects(
                written_clause("ts"@, seq!['<' as u8, '=' as u8], value, w),
                ts,
                sev,
                dialect,
                line,
            ) == Some(timed && ts <= t)
            &&& selects(
                written_clause("ts"@, seq!['>' as u8], value, w),
                ts,
                sev,
                dialect,
                line,
            ) == Some(timed && ts > t)
            &&& selects(
                written_clause("ts"@, seq!['>' as u8, '=' as u8], value, w),
                ts,
                sev,
                dialect,
                line,
            ) == Some(timed && ts >= t)
        }),
{
    lemma_ts_is_a_name();
    lemma_bounds(value, ts, sev, dialect, line);
    let lt = dsl::clause_rule("ts"@, Op::Lt, value)->Ok_0;
    let le = dsl::clause_rule("ts"@, Op::Le, value)->Ok_0;
    let gt = dsl::clause_rule("ts"@, Op::Gt, value)->Ok_0;
    let ge = dsl::clause_rule("ts"@, Op::Ge, value)->Ok_0;
    lemma_clause("ts"@, Op::Lt, seq!['<' as u8], value, w, lt);
    lemma_clause("ts"@, Op::Le, seq!['<' as u8, '=' as u8], value, w, le);
    lemma_clause("ts"@, Op::Gt, seq!['>' as u8], value, w, gt);
    lemma_clause("ts"@, Op::Ge, seq!['>' as u8, '=' as u8], value, w, ge);
}

proof fn lemma_ts_is_a_name()
    ensures
        is_field_name("ts"@),
{
    reveal_strlit("ts");
    reveal_strlit("AND");
    reveal_strlit("OR");
    reveal_strlit("NOT");
    text::lemma_ascii_literal("ts");
    text::lemma_ascii_literal("AND");
    text::lemma_ascii_literal("OR");
    text::lemma_ascii_literal("NOT");
    let b = text::enc("ts"@);
    assert(b =~= seq!['t' as u8, 's' as u8]);
    text::lemma_ascii_white(b, 0);
    assert(text::past_white(b, 0) == 0);
    scan::lemma_run_end_at(b, 0, 2, ByteClass::Alpha);
    assert(dsl::word(b, 0)[0] == 't' as u8);
    assert(text::enc("AND"@)[0] == 'A' as u8);
    assert(text::enc("OR"@)[0] == 'O' as u8);
    assert(text::enc("NOT"@)[0] == 'N' as u8);
}

/// `field=value` selects the records whose field has exactly this text, and
/// `field!=value` all others, those without the field among them.
pub proof fn law_equality_compares_the_whole_text(
    field: Seq<char>,
    value: Seq<char>,
    w: Writing,
    ts: i64,
    sev: u8,
    dialect: Dialect,
    line: Seq<u8>,
)
    requires
        is_field_name(field),
        is_writable(value, w),
        !(w is InSlashes),
    ensures
        selects(
            written_clause(field, seq!['=' as u8], value, w),
            ts,
            sev,
            dialect,
            line,
        ) == Some(dialect.field(line, field) == Some(value)),
        selects(
            written_clause(field, seq!['!' as u8, '=' as u8], value, w),
            ts,
            sev,
            dialect,
            line,
        ) == Some(dialect.field(line, field) != Some(value)),
{
    let eq = dsl::clause_rule(field, Op::Eq, value)->Ok_0;
    let ne = dsl::clause_rule(field, Op::Ne, value)->Ok_0;
    lemma_clause(field, Op::Eq, seq!['=' as u8], value, w, eq);
    lemma_clause(field, Op::Ne, seq!['!' as u8, '=' as u8], value, w, ne);
    assert(ne == precedence::negated(eq));
    reveal_with_fuel(Rule::holds, 3);
}

/// `field~pattern` selects the records that have the field and whose text the
/// pattern matches.
pub proof fn law_pattern_is_held_against_the_field(
    field: Seq<char>,
    value: Seq<char>,
    w: Writing,
    ts: i64,
    sev: u8,
    dialect: Dialect,
    line: Seq<u8>,
)
    requires
        is_field_name(field),
        is_writable(value, w),
        pattern::text_regex_error(value) is None,
    ensures
        selects(
            written_clause(field, seq!['~' as u8], value, w),
            ts,
            sev,
            dialect,
            line,
        ) == Some(
            dialect.field(line, field) is Some && pattern::text_matches(
                value,
                dialect.field(line, field)->0,
            ),
        ),
{
    let re = dsl::clause_rule(field, Op::Regex, value)->Ok_0;
    lemma_clause(field, Op::Regex, seq!['~' as u8], value, w, re);
}

} // verus!
