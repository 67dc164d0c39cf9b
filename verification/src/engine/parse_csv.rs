//! CSV / TSV parser.
//!
//! Reference: RFC 4180.
//!
//! ```text
//! col1,col2,col3
//! a,b,c
//! "quoted, value","with ""escapes""",plain
//! ```
//!
//! - Delimiter is `,` for CSV, `\t` for TSV.
//! - Values may be unquoted or `"`-quoted. Inside quotes, `""` is a literal
//!   `"`; anything else is verbatim. A record is one physical line.
//! - The first line of a source is its header and names the columns.
//!
//! Fields are found by header name. Columns can also be addressed positionally
//! as `_1` ... `_N` (1-based).

use vstd::prelude::*;

use crate::scan;
use crate::scan::ByteClass;
use crate::engine::parse;
use crate::engine::parse::{FieldNames, ParseStats, TsOutcome};
use crate::engine::record::severity;
use crate::text;

verus! {

#[derive(Debug, Clone, Copy, PartialEq, Eq, Structural)]
pub enum Delim {
    Comma,
    Tab,
}

impl Delim {
    pub open spec fn as_byte(self) -> u8 {
        match self {
            Delim::Comma => ',' as u8,
            Delim::Tab => '\t' as u8,
        }
    }

    pub fn byte(self) -> (r: u8)
        ensures
            r == self.as_byte(),
    {
        match self {
            Delim::Comma => ',' as u8,
            Delim::Tab => '\t' as u8,
        }
    }
}

/// A quoted field read from just behind its opening quote: the value with `""`
/// read as one quote, and the index behind the closing quote (or the length).
pub open spec fn quoted_field(s: Seq<u8>, i: int) -> (Seq<u8>, int)
    decreases s.len() - i,
{
    if !(0 <= i < s.len()) {
        (Seq::empty(), s.len() as int)
    } else if s[i] == '"' as u8 {
        if i + 1 < s.len() && s[i + 1] == '"' as u8 {
            let (v, e) = quoted_field(s, i + 2);
            (seq!['"' as u8] + v, e)
        } else {
            (Seq::empty(), i + 1)
        }
    } else {
        let (v, e) = quoted_field(s, i + 1);
        (seq![s[i]] + v, e)
    }
}

pub proof fn lemma_quoted_field(s: Seq<u8>, i: int)
    requires
        0 <= i <= s.len(),
    ensures
        i <= quoted_field(s, i).1 <= s.len(),
    decreases s.len() - i,
{
    if i < s.len() {
        if s[i] == '"' as u8 {
            if i + 1 < s.len() && s[i + 1] == '"' as u8 {
                lemma_quoted_field(s, i + 2);
            }
        } else {
            lemma_quoted_field(s, i + 1);
        }
    }
}

/// The fields of a record from index `i` on. A delimiter at the very end opens
/// one more, empty, field; so does an empty line.
pub open spec fn fields_from(s: Seq<u8>, i: int, d: u8) -> Seq<Seq<u8>>
    decreases s.len() - i,
{
    if !(0 <= i < s.len()) {
        if s.len() == 0 || s[s.len() - 1] == d {
            seq![Seq::empty()]
        } else {
            Seq::empty()
        }
    } else if s[i] == '"' as u8 {
        let (v, e) = quoted_field(s, i + 1);
        if !(i < e < s.len()) {
            seq![v]
        } else {
            seq![v] + fields_from(
                s,
                if s[e] == d {
                    e + 1
                } else {
                    e
                },
                d,
            )
        }
    } else {
        let e = scan::run_end(s, i, ByteClass::Except(d));
        seq![s.subrange(i, e)] + if e < s.len() && i <= e {
            fields_from(s, e + 1, d)
        } else {
            Seq::empty()
        }
    }
}

/// The fields of a record.
pub open spec fn record_fields(s: Seq<u8>, d: u8) -> Seq<Seq<u8>> {
    fields_from(s, 0, d)
}

/// The texts of a record's fields.
pub open spec fn row(s: Seq<u8>, d: u8) -> Seq<Seq<char>> {
    record_fields(s, d).map_values(|f: Seq<u8>| text::lossy(f))
}

fn read_quoted_field(s: &[u8], from: usize) -> (r: (Vec<u8>, usize))
    requires
        from <= s@.len(),
    ensures
        quoted_field(s@, from as int) == (r.0@, r.1 as int),
        from <= r.1 <= s@.len(),
{
    let ghost whole = quoted_field(s@, from as int);
    let mut value: Vec<u8> = Vec::new();
    let mut i: usize = from;
    proof {
        lemma_quoted_field(s@, from as int);
        assert(value@ + whole.0 =~= whole.0);
    }
    while i < s.len()
        invariant
            from <= i <= s@.len(),
            from <= whole.1 <= s@.len(),
            whole == quoted_field(s@, from as int),
            whole.0 == value@ + quoted_field(s@, i as int).0,
            whole.1 == quoted_field(s@, i as int).1,
        decreases s@.len() - i,
    {
        let ghost before = value@;
        if s[i] == '"' as u8 {
            if i + 1 < s.len() && s[i + 1] == '"' as u8 {
                value.push('"' as u8);
                proof {
                    let rest = quoted_field(s@, i + 2).0;
                    assert(before + (seq!['"' as u8] + rest) =~= value@ + rest);
                }
                i = i + 2;
            } else {
                assert(whole.0 =~= value@);
                return (value, i + 1);
            }
        } else {
            value.push(s[i]);
            proof {
                let rest = quoted_field(s@, i + 1).0;
                assert(before + (seq![s@[i as int]] + rest) =~= value@ + rest);
            }
            i = i + 1;
        }
    }
    assert(whole.0 =~= value@);
    (value, i)
}

/// Split one CSV/TSV record into owned field strings.
pub fn split_record(line: &[u8], delim: Delim) -> (r: Vec<String>)
    ensures
        text::texts(r@) == row(line@, delim.as_byte()),
{
    let d: u8 = delim.byte();
    let ghost whole = record_fields(line@, d);
    let mut out: Vec<String> = Vec::new();
    let ghost mut done: Seq<Seq<u8>> = Seq::empty();
    let mut i: usize = 0;
    let mut more: bool = true;
    assert(done + whole =~= whole);
    while more && i < line.len()
        invariant
            i <= line@.len(),
            d == delim.as_byte(),
            whole == record_fields(line@, d),
            out@.len() == done.len(),
            forall|k: int| 0 <= k < done.len() ==> (#[trigger] out@[k])@ == text::lossy(done[k]),
            more ==> whole == done + fields_from(line@, i as int, d),
            !more ==> whole == done,
        decreases line@.len() - i, more as int,
    {
        let ghost before = done;
        let ghost at = i as int;
        if line[i] == '"' as u8 {
            let (value, e) = read_quoted_field(line, i + 1);
            let shown: String = text::from_utf8_lossy(&value);
            proof {
                done = done.push(value@);
            }
            out.push(shown);
            if e >= line.len() {
                more = false;
                i = e;
                assert(before + seq![value@] =~= done);
            } else {
                if line[e] == d {
                    i = e + 1;
                } else {
                    i = e;
                }
                assert(before + (seq![value@] + fields_from(line@, i as int, d)) =~= done
                    + fields_from(line@, i as int, d));
            }
        } else {
            let e: usize = scan::skip(line, i, ByteClass::Except(d));
            let part: &[u8] = &line[i..e];
            let shown: String = text::from_utf8_lossy(part);
            proof {
                done = done.push(part@);
            }
            out.push(shown);
            if e < line.len() {
                i = e + 1;
                assert(before + (seq![part@] + fields_from(line@, i as int, d)) =~= done
                    + fields_from(line@, i as int, d));
            } else {
                more = false;
                i = e;
                assert(before + (seq![part@] + Seq::empty()) =~= done);
            }
        }
    }
    if more && (line.len() == 0 || line[line.len() - 1] == d) {
        let empty: &[u8] = &line[0..0];
        assert(empty@ =~= Seq::empty());
        let shown: String = text::from_utf8_lossy(empty);
        proof {
            assert(done + seq![empty@] =~= done.push(empty@));
            done = done.push(empty@);
        }
        out.push(shown);
        assert(whole == done);
    } else {
        assert(whole =~= done);
    }
    assert(text::texts(out@) =~= row(line@, d));
    out
}

/// Index of the first header called `name`, at or after `i`.
pub open spec fn column(headers: Seq<Seq<char>>, name: Seq<char>, i: int) -> Option<int>
    decreases headers.len() - i,
{
    if !(0 <= i < headers.len()) {
        None
    } else if headers[i] == name {
        Some(i)
    } else {
        column(headers, name, i + 1)
    }
}

/// Find the column index of a named header. Case-sensitive.
pub fn column_index(headers: &[String], name: &str) -> (r: Option<usize>)
    ensures
        match r {
            Some(i) => column(text::texts(headers@), name@, 0) == Some(i as int) && i
                < headers@.len(),
            None => column(text::texts(headers@), name@, 0) is None,
        },
{
    let mut i: usize = 0;
    while i < headers.len()
        invariant
            i <= headers@.len(),
            column(text::texts(headers@), name@, 0) == column(
                text::texts(headers@),
                name@,
                i as int,
            ),
        decreases headers@.len() - i,
    {
        if text::str_eq(headers[i].as_str(), name) {
            return Some(i);
        }
        i = i + 1;
    }
    None
}

/// The cell of a column, where the record has one.
pub open spec fn cell(cells: Seq<Seq<char>>, at: Option<int>) -> Option<Seq<char>> {
    match at {
        Some(i) => if 0 <= i < cells.len() {
            Some(cells[i])
        } else {
            None
        },
        None => None,
    }
}

/// The outcome and severity of a record under its header. An empty timestamp
/// cell counts as absent.
pub open spec fn reading(
    line: Seq<u8>,
    d: u8,
    headers: Seq<Seq<char>>,
    fields: Option<&FieldNames>,
) -> (TsOutcome, u8) {
    let cells = row(line, d);
    (
        match cell(cells, column(headers, parse::ts_key(fields), 0)) {
            Some(t) => if t.len() > 0 {
                parse::parsed_or_malformed(parse::rfc3339(text::enc(t)))
            } else {
                TsOutcome::Missing
            },
            None => TsOutcome::Missing,
        },
        match cell(cells, column(headers, parse::level_key(fields), 0)) {
            Some(t) => severity::rank_of(text::enc(t)),
            None => severity::UNKNOWN,
        },
    )
}

/// Timestamp and severity of a record under its header.
pub fn ts_and_level_with_header(
    line: &[u8],
    delim: Delim,
    headers: &[String],
    stats: &mut ParseStats,
    fields: Option<&FieldNames>,
) -> (r: (i64, u8))
    requires
        old(stats).has_room(),
    ensures
        ({
            let (o, sev) = reading(line@, delim.as_byte(), text::texts(headers@), fields);
            r.0 == o.micros() && r.1 == sev && *final(stats) == old(stats).counting(o)
        }),
{
    let cells: Vec<String> = split_record(line, delim);
    let ghost model = row(line@, delim.as_byte());
    assert(cells@.len() == model.len());
    assert(forall|i: int| 0 <= i < cells@.len() ==> model[i] == #[trigger] cells@[i]@) by {
        assert(forall|i: int|
            0 <= i < cells@.len() ==> text::texts(cells@)[i] == #[trigger] cells@[i]@);
    }
    let ts_at: Option<usize> = column_index(headers, parse::ts_key_of(fields));
    let level_at: Option<usize> = column_index(headers, parse::level_key_of(fields));
    let sev: u8 = match level_at {
        Some(i) => {
            if i < cells.len() {
                severity::from_bytes(cells[i].as_str().as_bytes())
            } else {
                severity::UNKNOWN
            }
        },
        None => severity::UNKNOWN,
    };
    let outcome: TsOutcome = match ts_at {
        Some(i) => {
            if i < cells.len() && !cells[i].as_str().is_empty() {
                parse::timed_or_malformed(parse::parse_rfc3339_micros(cells[i].as_str()))
            } else {
                TsOutcome::Missing
            }
        },
        None => TsOutcome::Missing,
    };
    (stats.count(outcome), sev)
}

/// The 1-based column that a positional name `_N` stands for, as an index; an
/// explicit `+` before the digits is allowed.
pub open spec fn positional(key: Seq<u8>) -> Option<int> {
    let from = if key.len() > 1 && key[1] == '+' as u8 {
        2int
    } else {
        1
    };
    let digits = key.subrange(from, key.len() as int);
    if key.len() > 0 && key[0] == '_' as u8 && from < key.len() && scan::all_digits(digits)
        && scan::decimal(digits) >= 1 {
        Some(scan::decimal(digits) - 1)
    } else {
        None
    }
}

/// The text of a field: by header name, else by position.
pub open spec fn field(
    line: Seq<u8>,
    d: u8,
    headers: Seq<Seq<char>>,
    key: Seq<char>,
) -> Option<Seq<char>> {
    let at = column(headers, key, 0);
    cell(
        row(line, d),
        if at is Some {
            at
        } else {
            positional(text::enc(key))
        },
    )
}

/// Field projection under a header. Positional `_N` (1-based) is the fallback
/// when the header does not have the requested name.
pub fn project_field_with_header(line: &[u8], delim: Delim, headers: &[String], key: &str) -> (r:
    Option<String>)
    ensures
        text::opt_view(r) == field(line@, delim.as_byte(), text::texts(headers@), key@),
{
    let cells: Vec<String> = split_record(line, delim);
    let ghost model = row(line@, delim.as_byte());
    assert(cells@.len() == model.len());
    assert(forall|i: int| 0 <= i < cells@.len() ==> model[i] == #[trigger] cells@[i]@) by {
        assert(forall|i: int|
            0 <= i < cells@.len() ==> text::texts(cells@)[i] == #[trigger] cells@[i]@);
    }
    match column_index(headers, key) {
        Some(i) => {
            return if i < cells.len() {
                Some(cells[i].as_str().to_owned())
            } else {
                None
            };
        },
        None => {},
    }
    let k: &[u8] = key.as_bytes();
    if k.len() == 0 || k[0] != '_' as u8 {
        return None;
    }
    let from: usize = if k.len() > 1 && k[1] == '+' as u8 {
        2
    } else {
        1
    };
    if from >= k.len() {
        return None;
    }
    match scan::parse_decimal(&k[from..k.len()], cells.len() as u64) {
        Some(n) => {
            if n >= 1 && n - 1 < cells.len() as u64 {
                Some(cells[n as usize - 1].as_str().to_owned())
            } else {
                None
            }
        },
        None => None,
    }
}

/// Delimiters outside quoted regions from `i` on: commas and tabs.
pub open spec fn delim_counts(s: Seq<u8>, i: int, in_quote: bool) -> (nat, nat)
    decreases s.len() - i,
{
    if !(0 <= i < s.len()) {
        (0, 0)
    } else if s[i] == '"' as u8 {
        if in_quote && i + 1 < s.len() && s[i + 1] == '"' as u8 {
            delim_counts(s, i + 2, in_quote)
        } else {
            delim_counts(s, i + 1, !in_quote)
        }
    } else {
        let (c, t) = delim_counts(s, i + 1, in_quote);
        if in_quote {
            (c, t)
        } else if s[i] == ',' as u8 {
            (c + 1, t)
        } else if s[i] == '\t' as u8 {
            (c, t + 1)
        } else {
            (c, t)
        }
    }
}

/// The delimiter that a line is taken to have.
pub open spec fn voted_delim(line: Seq<u8>) -> Option<Delim> {
    let (commas, tabs) = delim_counts(line, 0, false);
    if tabs >= 2 && tabs > commas {
        Some(Delim::Tab)
    } else if commas >= 2 {
        Some(Delim::Comma)
    } else {
        None
    }
}

/// A line looks like TSV or CSV when it has at least two such delimiters
/// outside of quoted regions; tabs win only where they outnumber commas.
pub fn delim_vote(line: &[u8]) -> (r: Option<Delim>)
    ensures
        r == voted_delim(line@),
{
    let mut commas: usize = 0;
    let mut tabs: usize = 0;
    let mut in_quote: bool = false;
    let mut i: usize = 0;
    while i < line.len()
        invariant
            i <= line@.len(),
            commas <= i,
            tabs <= i,
            delim_counts(line@, 0, false).0 == commas + delim_counts(line@, i as int, in_quote).0,
            delim_counts(line@, 0, false).1 == tabs + delim_counts(line@, i as int, in_quote).1,
        decreases line@.len() - i,
    {
        let b: u8 = line[i];
        if b == '"' as u8 {
            if in_quote && i + 1 < line.len() && line[i + 1] == '"' as u8 {
                i = i + 2;
            } else {
                in_quote = !in_quote;
                i = i + 1;
            }
        } else {
            if !in_quote {
                if b == ',' as u8 {
                    commas = commas + 1;
                } else if b == '\t' as u8 {
                    tabs = tabs + 1;
                }
            }
            i = i + 1;
        }
    }
    if tabs >= 2 && tabs > commas {
        Some(Delim::Tab)
    } else if commas >= 2 {
        Some(Delim::Comma)
    } else {
        None
    }
}

/// A cell to be written, in quotes or bare.
pub struct Cell {
    pub body: Seq<u8>,
    pub in_quotes: bool,
}

/// A value with each quote in it doubled.
pub open spec fn doubled(v: Seq<u8>) -> Seq<u8>
    decreases v.len(),
{
    if v.len() == 0 {
        Seq::empty()
    } else if v[0] == '"' as u8 {
        seq!['"' as u8, '"' as u8] + doubled(v.skip(1))
    } else {
        seq![v[0]] + doubled(v.skip(1))
    }
}

impl Cell {
    /// A bare cell holds no delimiter and does not start with a quote.
    pub open spec fn is_writable(self, d: u8) -> bool {
        self.in_quotes || {
            &&& forall|k: int| 0 <= k < self.body.len() ==> #[trigger] self.body[k] != d
            &&& self.body.len() > 0 ==> self.body[0] != '"' as u8
        }
    }

    pub open spec fn written(self) -> Seq<u8> {
        if self.in_quotes {
            seq!['"' as u8] + (doubled(self.body) + seq!['"' as u8])
        } else {
            self.body
        }
    }
}

/// Cells written one behind the other, with a delimiter between two.
pub open spec fn written_record(cells: Seq<Cell>, d: u8) -> Seq<u8>
    decreases cells.len(),
{
    if cells.len() == 0 {
        Seq::empty()
    } else if cells.len() == 1 {
        cells[0].written()
    } else {
        cells[0].written() + (seq![d] + written_record(cells.skip(1), d))
    }
}

proof fn lemma_doubled_is_read(s: Seq<u8>, i: int, v: Seq<u8>)
    requires
        scan::stands(s, i, doubled(v) + seq!['"' as u8]),
        i + doubled(v).len() + 1 < s.len() ==> s[i + doubled(v).len() + 1] != '"' as u8,
    ensures
        quoted_field(s, i) == (v, i + doubled(v).len() + 1),
    decreases v.len(),
{
    let close = seq!['"' as u8];
    let written = doubled(v) + close;
    if v.len() == 0 {
        assert(written =~= close);
        scan::lemma_stands_byte(s, i, close, 0);
        assert(quoted_field(s, i).0 =~= v);
    } else {
        let rest = v.skip(1);
        let after = doubled(rest) + close;
        if v[0] == '"' as u8 {
            let two = seq!['"' as u8, '"' as u8];
            assert(written =~= two + after);
            scan::lemma_halves(s, i, two, after);
            scan::lemma_stands_byte(s, i, two, 0);
            scan::lemma_stands_byte(s, i, two, 1);
            lemma_doubled_is_read(s, i + 2, rest);
            assert(seq!['"' as u8] + rest =~= v);
        } else {
            let one = seq![v[0]];
            assert(written =~= one + after);
            scan::lemma_halves(s, i, one, after);
            scan::lemma_stands_byte(s, i, one, 0);
            lemma_doubled_is_read(s, i + 1, rest);
            assert(one + rest =~= v);
        }
    }
}

/// One cell at `i`, and what follows it.
proof fn lemma_cell_is_read(s: Seq<u8>, i: int, cell: Cell, d: u8)
    requires
        d != '"' as u8,
        cell.is_writable(d),
        scan::stands(s, i, cell.written()),
        ({
            let e = i + cell.written().len();
            e == s.len() || (e < s.len() && s[e] == d)
        }),
        i == 0 || s[i - 1] == d,
    ensures
        ({
            let e = i + cell.written().len();
            fields_from(s, i, d) == seq![cell.body] + if e < s.len() {
                fields_from(s, e + 1, d)
            } else {
                Seq::empty()
            }
        }),
{
    let e = i + cell.written().len();
    if cell.in_quotes {
        let open = seq!['"' as u8];
        let body = doubled(cell.body) + seq!['"' as u8];
        scan::lemma_halves(s, i, open, body);
        scan::lemma_stands_byte(s, i, open, 0);
        lemma_doubled_is_read(s, i + 1, cell.body);
        assert(seq![cell.body] + Seq::<Seq<u8>>::empty() =~= seq![cell.body]);
    } else if cell.body.len() == 0 && i == s.len() {
        assert(seq![cell.body] + Seq::<Seq<u8>>::empty() =~= seq![Seq::<u8>::empty()]) by {
            assert(cell.body =~= Seq::<u8>::empty());
        }
    } else {
        if cell.body.len() > 0 {
            scan::lemma_stands_byte(s, i, cell.body, 0);
        }
        assert(0 <= i < s.len()) by {
            reveal(scan::stands);
        }
        scan::lemma_stands_run(s, i, cell.body, ByteClass::Except(d));
        scan::lemma_stands_subrange(s, i, cell.body);
    }
}

proof fn lemma_record_from(s: Seq<u8>, i: int, cells: Seq<Cell>, d: u8)
    requires
        d != '"' as u8,
        cells.len() > 0,
        forall|k: int| 0 <= k < cells.len() ==> (#[trigger] cells[k]).is_writable(d),
        scan::stands(s, i, written_record(cells, d)),
        i + written_record(cells, d).len() == s.len(),
        i == 0 || s[i - 1] == d,
    ensures
        fields_from(s, i, d) =~= Seq::new(cells.len(), |k: int| cells[k].body),
    decreases cells.len(),
{
    assert(cells[0].is_writable(d));
    let one = cells[0].written();
    let e = i + one.len();
    if cells.len() == 1 {
        lemma_cell_is_read(s, i, cells[0], d);
    } else {
        let more = cells.skip(1);
        let sep = seq![d];
        scan::lemma_halves(s, i, one, sep + written_record(more, d));
        scan::lemma_halves(s, e, sep, written_record(more, d));
        scan::lemma_stands_byte(s, e, sep, 0);
        lemma_cell_is_read(s, i, cells[0], d);
        assert forall|k: int| 0 <= k < more.len() implies (#[trigger] more[k]).is_writable(d) by {
            assert(more[k] == cells[k + 1]);
        }
        lemma_record_from(s, e + 1, more, d);
    }
}

/// Cells that are written to a record are read from it, whether in quotes or
/// bare: the same bytes, in order. Where they encode texts, so are the texts.
pub proof fn law_written_cells_are_read(cells: Seq<Cell>, delim: Delim)
    requires
        cells.len() > 0,
        forall|k: int| 0 <= k < cells.len() ==> (#[trigger] cells[k]).is_writable(delim.as_byte()),
    ensures
        ({
            let d = delim.as_byte();
            let s = written_record(cells, d);
            &&& record_fields(s, d) == Seq::new(cells.len(), |k: int| cells[k].body)
            &&& row(s, d).len() == cells.len()
            &&& forall|k: int, t: Seq<char>|
                0 <= k < cells.len() && cells[k].body == #[trigger] text::enc(t)
                    ==> #[trigger] row(s, d)[k] == t
        }),
{
    let d = delim.as_byte();
    let s = written_record(cells, d);
    scan::lemma_whole(s);
    lemma_record_from(s, 0, cells, d);
    assert forall|k: int, t: Seq<char>|
        0 <= k < cells.len() && cells[k].body == #[trigger] text::enc(
            t,
        ) implies #[trigger] row(s, d)[k] == t by {
        assert(record_fields(s, d)[k] == cells[k].body);
        text::lemma_lossy_of_text(t);
    }
}

/// CSV is parted by commas, TSV by tabs.
pub proof fn law_delimiters()
    ensures
        Delim::Comma.as_byte() == 0x2c,
        Delim::Tab.as_byte() == 0x09,
{
}

/// The first header of a name is its column.
proof fn lemma_column_found(headers: Seq<Seq<char>>, name: Seq<char>, i: int, c: int)
    requires
        0 <= i <= c < headers.len(),
        headers[c] == name,
        forall|j: int| i <= j < c ==> #[trigger] headers[j] != name,
    ensures
        column(headers, name, i) == Some(c),
    decreases c - i,
{
    if i < c {
        assert(headers[i] != name);
        lemma_column_found(headers, name, i + 1, c);
    }
}

proof fn lemma_column_missing(headers: Seq<Seq<char>>, name: Seq<char>, i: int)
    requires
        0 <= i <= headers.len(),
        forall|j: int| i <= j < headers.len() ==> #[trigger] headers[j] != name,
    ensures
        column(headers, name, i) is None,
    decreases headers.len() - i,
{
    if i < headers.len() {
        assert(headers[i] != name);
        lemma_column_missing(headers, name, i + 1);
    }
}

/// A field is the cell that stands below its header: the first header of that
/// name decides, and a record that ends before that column has no such cell.
pub proof fn law_field_stands_below_its_header(
    line: Seq<u8>,
    d: u8,
    headers: Seq<Seq<char>>,
    key: Seq<char>,
    c: int,
)
    requires
        0 <= c < headers.len(),
        headers[c] == key,
        forall|j: int| 0 <= j < c ==> #[trigger] headers[j] != key,
    ensures
        c < row(line, d).len() ==> field(line, d, headers, key) == Some(row(line, d)[c]),
        c >= row(line, d).len() ==> field(line, d, headers, key) is None,
{
    lemma_column_found(headers, key, 0, c);
}

/// `_1` is the first cell of a record, `_2` the second, and so on, where no
/// header has that name.
pub proof fn law_numbered_fields_count_from_one(
    line: Seq<u8>,
    d: u8,
    headers: Seq<Seq<char>>,
    key: Seq<char>,
    digits: Seq<u8>,
)
    requires
        text::enc(key) == seq!['_' as u8] + digits,
        digits.len() > 0,
        scan::all_digits(digits),
        forall|j: int| 0 <= j < headers.len() ==> #[trigger] headers[j] != key,
    ensures
        1 <= scan::decimal(digits) <= row(line, d).len() ==> field(line, d, headers, key) == Some(
            row(line, d)[scan::decimal(digits) - 1],
        ),
        scan::decimal(digits) == 0 || scan::decimal(digits) > row(line, d).len() ==> field(
            line,
            d,
            headers,
            key,
        ) is None,
{
    lemma_column_missing(headers, key, 0);
    let b = text::enc(key);
    assert(b[1] == digits[0]);
    assert(ByteClass::Digit.has(digits[0]));
    assert(b.subrange(1, b.len() as int) =~= digits);
}

/// The time of a record is that of the cell below the timestamp's header, its
/// severity that of the cell below the level's.
pub proof fn law_record_is_read_by_its_header(
    line: Seq<u8>,
    d: u8,
    headers: Seq<Seq<char>>,
    fields: Option<&FieldNames>,
    t: int,
    l: int,
)
    requires
        0 <= t < headers.len(),
        0 <= l < headers.len(),
        headers[t] == parse::ts_key(fields),
        headers[l] == parse::level_key(fields),
        forall|j: int| 0 <= j < t ==> #[trigger] headers[j] != headers[t],
        forall|j: int| 0 <= j < l ==> #[trigger] headers[j] != headers[l],
    ensures
        ({
            let cells = row(line, d);
            let (outcome, sev) = reading(line, d, headers, fields);
            &&& t < cells.len() && cells[t].len() > 0 ==> outcome == (match parse::rfc3339(
                text::enc(cells[t]),
            ) {
                Some(v) => TsOutcome::Timed(v as i64),
                None => TsOutcome::Malformed,
            })
            &&& t >= cells.len() || cells[t].len() == 0 ==> outcome == TsOutcome::Missing
            &&& l < cells.len() ==> sev == severity::rank_of(text::enc(cells[l]))
            &&& l >= cells.len() ==> sev == severity::UNKNOWN
        }),
{
    lemma_column_found(headers, headers[t], 0, t);
    lemma_column_found(headers, headers[l], 0, l);
}

/// Inside quotes nothing counts; outside of them, every comma and every tab.
proof fn lemma_delims_are_counted(s: Seq<u8>, i: int)
    requires
        0 <= i <= s.len(),
        !s.contains('"' as u8),
    ensures
        ({
            let rest = s.subrange(i, s.len() as int);
            &&& delim_counts(s, i, true) == (0nat, 0nat)
            &&& delim_counts(s, i, false).0 == rest.filter(|b: u8| b == ',' as u8).len()
            &&& delim_counts(s, i, false).1 == rest.filter(|b: u8| b == '\t' as u8).len()
        }),
    decreases s.len() - i,
{
    reveal(Seq::filter);
    let rest = s.subrange(i, s.len() as int);
    if i < s.len() {
        assert(s.contains(s[i]));
        lemma_delims_are_counted(s, i + 1);
        let tail = s.subrange(i + 1, s.len() as int);
        let one = seq![s[i]];
        assert(rest =~= one + tail);
        let commas = |b: u8| b == ',' as u8;
        let tabs = |b: u8| b == '\t' as u8;
        Seq::filter_distributes_over_add(one, tail, commas);
        Seq::filter_distributes_over_add(one, tail, tabs);
        assert(one.drop_last() =~= Seq::empty());
        assert(one.drop_last().filter(commas) =~= Seq::empty());
        assert(one.drop_last().filter(tabs) =~= Seq::empty());
    }
}

/// A line without quotes is a table's where two commas or two tabs stand in
/// it, and a tab's table only where there are more tabs than commas.
pub proof fn law_line_votes_for_its_delimiter(line: Seq<u8>)
    requires
        !line.contains('"' as u8),
    ensures
        ({
            let commas = line.filter(|b: u8| b == ',' as u8).len();
            let tabs = line.filter(|b: u8| b == '\t' as u8).len();
            &&& voted_delim(line) == Some(Delim::Tab) <==> tabs >= 2 && tabs > commas
            &&& voted_delim(line) == Some(Delim::Comma) <==> commas >= 2 && commas >= tabs
        }),
{
    lemma_delims_are_counted(line, 0);
    assert(line.subrange(0, line.len() as int) =~= line);
}

} // verus!
