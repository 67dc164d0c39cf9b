//! DetailPane: pretty-printed JSON of the focused row, beside the table.
//!
//! Pretty-printing parses the whole record. That is fine here: it runs on one
//! record at a time. A source without any structure shows the lines around
//! the focused one instead, so that stack traces read as a block.

use vstd::prelude::*;
use vstd::string::*;
use vstd::utf8;

use crate::engine::Engine;
use crate::number;
use crate::panes;
use crate::panes::{Row, RowView, Span, SpanView};
use crate::scan;
use crate::scan::ByteClass;
use crate::text;
use crate::theme::{Color, Style};

verus! {

/// Bytes of a line that are shown before it is cut.
pub const LINE_CAP: usize = 262_144;

/// Lines shown on each side of the focused one.
pub const CONTEXT: u64 = 5;

/// A line as pretty-printed JSON: nothing when it is not JSON; inside that,
/// nothing when it could not be printed.
pub uninterp spec fn pretty_json(line: Seq<u8>) -> Option<Option<Seq<char>>>;

/// `serde_json::from_slice` into a `Value` and `serde_json::to_string_pretty`
/// of that. The result is a function of the line.
#[verifier::external_body]
fn pretty(line: &[u8]) -> (r: Option<Option<String>>)
    ensures
        match r {
            None => pretty_json(line@) is None,
            Some(printed) => pretty_json(line@) == Some(text::opt_view(printed)),
        },
{
    let value: serde_json::Value = serde_json::from_slice(line).ok()?;
    Some(serde_json::to_string_pretty(&value).ok())
}

/// What the pane shows of one record: its pretty-printed JSON, or the line
/// itself, under a note when it is not JSON.
pub open spec fn body_text(printed: Option<Option<Seq<char>>>, raw: Seq<char>) -> Seq<char> {
    match printed {
        Some(Some(s)) => s,
        Some(None) => raw,
        None => "(non-JSON line)\n"@ + raw,
    }
}

/// The text shown of a record, given its pretty-printed form.
pub fn body(printed: Option<Option<String>>, line: &[u8]) -> (r: String)
    ensures
        r@ == body_text(
            match printed {
                Some(p) => Some(text::opt_view(p)),
                None => None,
            },
            text::lossy(line@),
        ),
{
    match printed {
        Some(Some(s)) => s,
        Some(None) => text::from_utf8_lossy(line),
        None => "(non-JSON line)\n".to_owned().concat(text::from_utf8_lossy(line).as_str()),
    }
}

/// A line cut to what is shown, with a note on how much is left out.
pub open spec fn capped(s: Seq<char>) -> Seq<char> {
    let n = text::enc(s).len() as int;
    if n <= LINE_CAP {
        s
    } else {
        text::shortened(s, LINE_CAP as int) + "… +"@ + number::digits((n - LINE_CAP) / 1_024)
            + "k more"@
    }
}

fn cap_line(s: String) -> (r: String)
    ensures
        r@ == capped(s@),
{
    let n: usize = s.as_str().as_bytes().len();
    if n <= LINE_CAP {
        return s;
    }
    let over: u64 = ((n - LINE_CAP) / 1_024) as u64;
    text::shorten(s.as_str(), LINE_CAP).concat("… +").concat(
        number::decimal_text(over).as_str(),
    ).concat("k more")
}

/// The style of the record's text.
pub open spec fn line_style() -> Style {
    Style::plain().with_fg(Color::Gray)
}

/// Where a line that reaches from `i` to its newline at `e` ends: before a
/// carriage return, if one stands before the newline.
pub open spec fn line_stop(b: Seq<u8>, i: int, e: int) -> int {
    if i < e < b.len() && b[e - 1] == '\r' as u8 {
        e - 1
    } else {
        e
    }
}

/// The rows of a text's lines, from index `i` of its UTF-8 on.
pub open spec fn line_rows(b: Seq<u8>, i: int) -> Seq<RowView>
    decreases b.len() - i,
{
    if !(0 <= i < b.len()) {
        Seq::empty()
    } else {
        let e = scan::run_end(b, i, ByteClass::Except('\n' as u8));
        let next = if i <= e < b.len() {
            e + 1
        } else {
            b.len() as int
        };
        seq![panes::single(capped(text::piece(b, i, line_stop(b, i, e))), line_style())]
            + line_rows(b, next)
    }
}

fn put_lines(rows: &mut Vec<Row>, s: &str)
    ensures
        panes::row_views(final(rows)@) == panes::row_views(old(rows)@) + line_rows(
            text::enc(s@),
            0,
        ),
{
    let b: &[u8] = s.as_bytes();
    let ghost start = panes::row_views(rows@);
    let ghost all = line_rows(b@, 0);
    proof {
        utf8::encode_utf8_valid_utf8(s@);
        utf8::is_char_boundary_start_end_of_seq(b@);
    }
    let mut i: usize = 0;
    while i < b.len()
        invariant
            i <= b@.len(),
            utf8::valid_utf8(b@),
            utf8::is_char_boundary(b@, i as int),
            start + all == panes::row_views(rows@) + line_rows(b@, i as int),
        decreases b@.len() - i,
    {
        let e: usize = scan::skip(b, i, ByteClass::Except('\n' as u8));
        proof {
            scan::lemma_run_end(b@, i as int, ByteClass::Except('\n' as u8));
            if e < b@.len() {
                text::lemma_ascii_boundaries(b@, e as int);
                if e > i && b@[e - 1] == '\r' as u8 {
                    text::lemma_ascii_boundaries(b@, e - 1);
                }
            } else {
                utf8::is_char_boundary_start_end_of_seq(b@);
            }
        }
        let stop: usize = if i < e && e < b.len() && b[e - 1] == '\r' as u8 {
            e - 1
        } else {
            e
        };
        let line: String = cap_line(text::take_piece(b, i, stop));
        let ghost before = panes::row_views(rows@);
        panes::put_single(rows, line, Style::new().fg(Color::Gray));
        let next: usize = if e < b.len() {
            e + 1
        } else {
            b.len()
        };
        proof {
            let row = panes::single(line@, line_style());
            assert(line_rows(b@, i as int) == seq![row] + line_rows(b@, next as int));
            assert(before + (seq![row] + line_rows(b@, next as int)) =~= before.push(row)
                + line_rows(b@, next as int));
        }
        i = next;
    }
    assert(panes::row_views(rows@) =~= start + all);
}

/// The source has no timestamps, no levels and no fields.
pub open spec fn is_plain(engine: Engine) -> bool {
    !engine.mostly_timed() && !engine.mostly_levelled() && !engine.structured()
}

/// The first and the past-the-last line of the context of a line.
pub open spec fn context_range(id: u64, total: int) -> (int, int) {
    let lo = if id < CONTEXT {
        0
    } else {
        id - CONTEXT
    };
    let hi = id + CONTEXT + 1;
    (lo, if hi < total {
        hi
    } else {
        total
    })
}

/// The rows of the lines from `lo` up to `hi`.
pub open spec fn context_rows(engine: Engine, lo: int, hi: int) -> Seq<RowView> {
    Seq::new(
        if hi > lo {
            (hi - lo) as nat
        } else {
            0
        },
        |i: int|
            panes::single(
                capped(text::lossy(engine.bytes_of(lo + i))),
                line_style(),
            ),
    )
}

/// What stands below the text.
pub open spec fn closing_rows() -> Seq<RowView> {
    seq![
        panes::plain_row(Seq::empty()),
        panes::single("Tab to close, Esc to clear filter"@, Style::plain().with_dim()),
    ]
}

/// The rows of the pane.
pub open spec fn rows(engine: Engine, id: u64) -> Seq<RowView> {
    let line = engine.bytes_of(id as int);
    let shown = if is_plain(engine) {
        let (lo, hi) = context_range(id, engine.indexes.line.locs@.len() as int);
        context_rows(engine, lo, hi)
    } else {
        line_rows(text::enc(body_text(pretty_json(line), text::lossy(line))), 0)
    };
    shown + closing_rows()
}

fn put_context(out: &mut Vec<Row>, engine: &Engine, id: u64)
    requires
        engine.wf(),
    ensures
        ({
            let (lo, hi) = context_range(id, engine.indexes.line.locs@.len() as int);
            panes::row_views(final(out)@) == panes::row_views(old(out)@) + context_rows(
                *engine,
                lo,
                hi,
            )
        }),
{
    let ghost start = panes::row_views(out@);
    let total: u64 = engine.indexes.len() as u64;
    let lo: u64 = if id < CONTEXT {
        0
    } else {
        id - CONTEXT
    };
    let hi: u64 = if id < total && total - id > CONTEXT + 1 {
        id + CONTEXT + 1
    } else {
        total
    };
    let ghost range = context_range(id, total as int);
    assert(lo == range.0 && hi == range.1);
    let ghost want = context_rows(*engine, range.0, range.1);
    let mut i: u64 = lo;
    assert(start + want.take(0) =~= start);
    while i < hi
        invariant
            engine.wf(),
            lo <= i,
            hi <= total,
            i <= hi || (lo >= hi && i == lo),
            want == context_rows(*engine, lo as int, hi as int),
            want.len() == if lo < hi {
                hi - lo
            } else {
                0
            },
            panes::row_views(out@) == start + want.take(i - lo),
        decreases hi - i,
    {
        let line: String = cap_line(text::from_utf8_lossy(engine.line_bytes(i)));
        panes::put_single(out, line, Style::new().fg(Color::Gray));
        assert(want[i - lo] == panes::single(line@, line_style()));
        assert(panes::row_views(out@) =~= start + want.take(i - lo + 1));
        i = i + 1;
    }
    assert(want.take(want.len() as int) =~= want);
    assert(i - lo == want.len());
}

/// The rows of the pane for the focused record.
pub fn detail_rows(engine: &Engine, line_id: u64) -> (r: Vec<Row>)
    requires
        engine.wf(),
    ensures
        panes::row_views(r@) == rows(*engine, line_id),
{
    let mut out: Vec<Row> = Vec::new();
    assert(panes::row_views(out@) =~= Seq::empty());
    let plain: bool = !engine.has_timestamps() && !engine.has_severity()
        && !engine.has_structured_fields();
    if plain {
        put_context(&mut out, engine, line_id);
    } else {
        let line: &[u8] = engine.line_bytes(line_id);
        let shown: String = body(pretty(line), line);
        put_lines(&mut out, shown.as_str());
    }
    let spans: Vec<Span> = Vec::new();
    assert(panes::span_views(spans@) =~= Seq::empty());
    panes::put_row(&mut out, spans, Style::new());
    panes::put_single(
        &mut out,
        "Tab to close, Esc to clear filter".to_owned(),
        Style::new().dim(),
    );
    assert(panes::row_views(out@) =~= rows(*engine, line_id));
    out
}

/// The title of the pane.
pub fn title(line_id: u64) -> (r: String)
    ensures
        r@ == " detail · line "@ + number::digits(line_id as int) + " "@,
{
    " detail · line ".to_owned().concat(number::decimal_text(line_id).as_str()).concat(" ")
}

/// Plain text is shown with its context: the line itself, and up to five lines
/// before it and behind it, in order.
pub proof fn law_context_is_five_lines_around(engine: Engine, id: u64, k: int)
    requires
        is_plain(engine),
        id < engine.indexes.line.locs@.len(),
    ensures
        ({
            let total = engine.indexes.line.locs@.len() as int;
            let all = rows(engine, id);
            let shown = |i: int|
                panes::single(capped(text::lossy(engine.bytes_of(i))), line_style());
            &&& id >= 5 ==> all[5] == shown(id as int)
            &&& id < 5 ==> all[id as int] == shown(id as int)
            &&& 1 <= k <= 5 && id + k < total ==> all[(if id < 5 {
                id as int
            } else {
                5
            }) + k] == shown(id + k)
            &&& 1 <= k <= 5 && id - k >= 0 ==> all[(if id < 5 {
                id as int
            } else {
                5
            }) - k] == shown(id - k)
            &&& all.len() <= 11 + 2
        }),
{
}

/// A line of up to 256 KiB is shown whole; of a longer one no more than that,
/// and how much is missing.
pub proof fn law_long_lines_are_capped(s: Seq<char>)
    ensures
        text::enc(s).len() <= 256 * 1_024 ==> capped(s) == s,
        text::enc(s).len() > 256 * 1_024 ==> capped(s) == text::shortened(s, 262_144) + "… +"@
            + number::digits((text::enc(s).len() - 256 * 1_024) / 1_024) + "k more"@,
{
}

/// JSON is shown as it was printed, any other line as it is, under a note
/// where it was no JSON.
pub proof fn law_record_is_shown_whole(printed: Seq<char>, raw: Seq<char>)
    ensures
        body_text(Some(Some(printed)), raw) == printed,
        body_text(Some(None), raw) == raw,
        body_text(None, raw) == "(non-JSON line)\n"@ + raw,
{
}

} // verus!
