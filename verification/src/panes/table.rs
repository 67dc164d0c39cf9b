//! TablePane: one line per record, ordered by `line_id`.
//!
//! Severity tints the time column. The cursor is a `line_id`, not a row index.
//! The filtered view lists the surviving ids in ascending order; a row is found
//! in it by binary search.

use vstd::prelude::*;
use vstd::string::*;

use crate::clock;
use crate::engine::histogram;
use crate::engine::parse;
use crate::engine::record::{severity, TS_UNTIMED};
use crate::engine::Engine;
use crate::number;
use crate::order;
use crate::panes;
use crate::panes::{Row, RowView, Span, SpanView};
use crate::schema;
use crate::text;
use crate::theme::{Style, Theme};

verus! {

/// Width of the line number.
pub const COL_LINE_W: usize = 9;

/// Width of the timestamp.
pub const COL_TS_W: usize = 24;

/// Width of the level.
pub const COL_LV_W: usize = 6;

/// Width of each auto-column.
pub const COL_FIELD_W: usize = 18;

/// Ids in ascending order, without repetition.
pub open spec fn ascending(view: Seq<u64>) -> bool {
    forall|i: int, j: int| 0 <= i < j < view.len() ==> view[i] < view[j]
}

/// Ids in ascending order, repetitions allowed.
pub open spec fn sorted(view: Seq<u64>) -> bool {
    forall|i: int, j: int| 0 <= i < j < view.len() ==> view[i] <= view[j]
}

/// How many ids stand below the cursor.
pub open spec fn bound(view: Seq<u64>, cursor: u64) -> int
    decreases view.len(),
{
    if view.len() == 0 {
        0
    } else if view.last() < cursor {
        view.len() as int
    } else {
        bound(view.drop_last(), cursor)
    }
}

/// The bound splits a sorted view: what is before it is below the cursor,
/// what is from it on is not.
pub proof fn lemma_bound(view: Seq<u64>, cursor: u64)
    requires
        sorted(view),
    ensures
        0 <= bound(view, cursor) <= view.len(),
        forall|i: int| 0 <= i < bound(view, cursor) ==> #[trigger] view[i] < cursor,
        forall|i: int| bound(view, cursor) <= i < view.len() ==> cursor <= #[trigger] view[i],
    decreases view.len(),
{
    if view.len() > 0 && view.last() >= cursor {
        lemma_bound(view.drop_last(), cursor);
        assert forall|i: int| 0 <= i < bound(view, cursor) implies #[trigger] view[i] < cursor by {
            assert(view.drop_last()[i] == view[i]);
        }
        assert forall|i: int| bound(view, cursor) <= i < view.len() implies cursor
            <= #[trigger] view[i] by {
            if i < view.len() - 1 {
                assert(view.drop_last()[i] == view[i]);
            }
        }
    }
}

/// Only one index splits the view so.
pub proof fn lemma_bound_is(view: Seq<u64>, cursor: u64, n: int)
    requires
        sorted(view),
        0 <= n <= view.len(),
        forall|i: int| 0 <= i < n ==> #[trigger] view[i] < cursor,
        forall|i: int| n <= i < view.len() ==> cursor <= #[trigger] view[i],
    ensures
        bound(view, cursor) == n,
{
    lemma_bound(view, cursor);
    let k = bound(view, cursor);
    if k < n {
        assert(view[k] < cursor);
    } else if n < k {
        assert(view[n] < cursor);
    }
}

/// Locate the index inside the view at or after `cursor`; the view's length if
/// every survivor is below it.
pub fn lower_bound(filtered_view: &[u64], cursor: u64) -> (r: usize)
    requires
        sorted(filtered_view@),
    ensures
        r == bound(filtered_view@, cursor),
        r <= filtered_view@.len(),
{
    let mut lo: usize = 0;
    let mut hi: usize = filtered_view.len();
    while lo < hi
        invariant
            sorted(filtered_view@),
            lo <= hi <= filtered_view@.len(),
            forall|i: int| 0 <= i < lo ==> #[trigger] filtered_view@[i] < cursor,
            forall|i: int| hi <= i < filtered_view@.len() ==> cursor <= #[trigger] filtered_view@[i],
        decreases hi - lo,
    {
        let mid: usize = lo + (hi - lo) / 2;
        if filtered_view[mid] < cursor {
            assert forall|i: int| 0 <= i < mid + 1 implies #[trigger] filtered_view@[i] < cursor by {
                if i < mid {
                    assert(filtered_view@[i] <= filtered_view@[mid as int]);
                }
            }
            lo = mid + 1;
        } else {
            assert forall|i: int| mid <= i < filtered_view@.len() implies cursor
                <= #[trigger] filtered_view@[i] by {
                if i > mid {
                    assert(filtered_view@[mid as int] <= filtered_view@[i]);
                }
            }
            hi = mid;
        }
    }
    proof {
        lemma_bound_is(filtered_view@, cursor, lo as int);
    }
    lo
}

/// Where a cursor lands in a view: on itself if it survives, else on the
/// largest survivor below it, else on the first.
pub open spec fn snapped(view: Seq<u64>, cursor: u64) -> Option<u64> {
    if view.len() == 0 {
        None
    } else {
        let i = bound(view, cursor);
        if i < view.len() && view[i] == cursor {
            Some(cursor)
        } else if i > 0 {
            Some(view[i - 1])
        } else {
            Some(view[0])
        }
    }
}

/// Snap a cursor onto the view. Used after filter changes: the old cursor's
/// line may not survive, so we land on the closest survivor.
pub fn snap_cursor(filtered_view: &[u64], cursor: u64) -> (r: Option<u64>)
    requires
        sorted(filtered_view@),
    ensures
        r == snapped(filtered_view@, cursor),
{
    if filtered_view.len() == 0 {
        return None;
    }
    let i: usize = lower_bound(filtered_view, cursor);
    if i < filtered_view.len() && filtered_view[i] == cursor {
        return Some(cursor);
    }
    if i > 0 {
        return Some(filtered_view[i - 1]);
    }
    Some(filtered_view[0])
}

/// A cursor that survives stays. One that does not lands on a survivor, with
/// no other survivor between: the largest below it, or the smallest of all
/// where none is below.
pub proof fn law_snap_finds_the_closest(view: Seq<u64>, cursor: u64)
    requires
        sorted(view),
    ensures
        match snapped(view, cursor) {
            None => view.len() == 0,
            Some(c) => {
                &&& view.contains(c)
                &&& view.contains(cursor) ==> c == cursor
                &&& c < cursor ==> forall|x: u64| #[trigger] view.contains(x) ==> x <= c || x
                    > cursor
                &&& c > cursor ==> forall|x: u64| #[trigger] view.contains(x) ==> c <= x
            },
        },
{
    if view.len() > 0 {
        lemma_bound(view, cursor);
        let i = bound(view, cursor);
        let c = snapped(view, cursor)->0;
        if i < view.len() && view[i] == cursor {
            assert(view.contains(cursor));
        } else if i > 0 {
            assert(view[i - 1] == c);
            assert(!view.contains(cursor)) by {
                if view.contains(cursor) {
                    let k = choose|k: int| 0 <= k < view.len() && view[k] == cursor;
                    if k > i {
                        assert(view[i] <= view[k]);
                    }
                }
            }
            assert forall|x: u64| #[trigger] view.contains(x) implies x <= c || x > cursor by {
                let k = choose|k: int| 0 <= k < view.len() && view[k] == x;
                if k < i - 1 {
                    assert(view[k] <= view[i - 1]);
                }
            }
        } else {
            assert(view[0] == c);
            assert(!view.contains(cursor)) by {
                if view.contains(cursor) {
                    let k = choose|k: int| 0 <= k < view.len() && view[k] == cursor;
                    if k > 0 {
                        assert(view[0] <= view[k]);
                    }
                }
            }
            assert forall|x: u64| #[trigger] view.contains(x) implies c <= x by {
                let k = choose|k: int| 0 <= k < view.len() && view[k] == x;
                if k > 0 {
                    assert(view[0] <= view[k]);
                }
            }
        }
    }
}

/// Snapping twice is snapping once.
pub proof fn law_snap_is_stable(view: Seq<u64>, cursor: u64)
    requires
        sorted(view),
    ensures
        snapped(view, cursor) matches Some(c) ==> snapped(view, c) == Some(c),
{
    if view.len() > 0 {
        law_snap_finds_the_closest(view, cursor);
        law_snap_finds_the_closest(view, snapped(view, cursor)->0);
    }
}

/// The timestamp cell of a record: dashes where it has none.
pub open spec fn ts_text(ts: i64) -> Seq<char> {
    if ts == TS_UNTIMED {
        number::repeated('—', COL_TS_W - 1)
    } else {
        clock::micros_text(ts as int)
    }
}

/// Microseconds since the epoch as `YYYY-MM-DDTHH:MM:SS.ffffff` (UTC).
pub fn format_ts_utc(ts_micros: i64) -> (r: String)
    ensures
        r@ == ts_text(ts_micros),
{
    if ts_micros == TS_UNTIMED {
        let mut out: String = String::new();
        number::push_repeated(&mut out, '—', COL_TS_W - 1);
        assert(out@ =~= ts_text(ts_micros));
        return out;
    }
    clock::format_micros(ts_micros)
}

/// A timestamp as the table writes it has 26 characters, reads back with `Z`
/// behind it, and sorts as text the way it sorts in time, for every year of
/// four digits.
pub proof fn law_shown_times_sort_and_read_back(s: i64, t: i64)
    requires
        s != TS_UNTIMED,
        clock::has_four_digit_year(s as int / 1_000_000),
        clock::has_four_digit_year(t as int / 1_000_000),
        s < t,
    ensures
        ts_text(s).len() == 26,
        ts_text(t).len() == 26,
        parse::rfc3339(text::enc(ts_text(s).push('Z'))) == Some(s as int),
        parse::rfc3339(text::enc(ts_text(t).push('Z'))) == Some(t as int),
        order::lex_less(text::enc(ts_text(s)), text::enc(ts_text(t))),
{
    clock::law_written_micros_read_back(s as int);
    clock::law_written_micros_read_back(t as int);
    clock::law_written_micros_sort_in_time(s as int, t as int);
}

/// Which columns a table shows, and how wide the raw line is.
pub struct Columns {
    pub show_ts: bool,
    pub show_level: bool,
    pub names: Vec<String>,
    pub raw_w: usize,
}

/// [`Columns`] as plain values.
pub struct ColumnsView {
    pub show_ts: bool,
    pub show_level: bool,
    pub names: Seq<Seq<char>>,
    pub raw_w: int,
}

impl View for Columns {
    type V = ColumnsView;

    open spec fn view(&self) -> ColumnsView {
        ColumnsView {
            show_ts: self.show_ts,
            show_level: self.show_level,
            names: text::texts(self.names@),
            raw_w: self.raw_w as int,
        }
    }
}

/// What is left of `a` after `b`, not below zero.
pub open spec fn less(a: int, b: int) -> int {
    if a > b {
        a - b
    } else {
        0
    }
}

/// The width that the line number, the timestamp and the level take.
pub open spec fn fixed_width(engine: Engine) -> int {
    COL_LINE_W + 1 + (if engine.mostly_timed() {
        COL_TS_W + 1
    } else {
        0
    }) + (if engine.mostly_levelled() {
        COL_LV_W + 1
    } else {
        0
    })
}

/// How many auto-columns a width has room for, beside the raw line.
pub open spec fn column_room(engine: Engine, width: int, cap: Option<usize>) -> int {
    let room = less(less(width, fixed_width(engine)) / (COL_FIELD_W + 1), 1);
    match cap {
        Some(n) if n < room => n as int,
        _ => room,
    }
}

/// The columns of a table. Each is shown only when there is data behind it:
/// plain text collapses to a wide raw column.
pub open spec fn layout(engine: Engine, width: int, cap: Option<usize>) -> ColumnsView {
    let names = match engine.schema {
        Some(s) if s.ordered_fields@.len() > 0 => {
            let all = schema::column_names(s.ordered_fields@);
            let room = column_room(engine, width, cap);
            if room < all.len() {
                all.take(room)
            } else {
                all
            }
        },
        _ => Seq::empty(),
    };
    ColumnsView {
        show_ts: engine.mostly_timed(),
        show_level: engine.mostly_levelled(),
        names,
        raw_w: less(less(width, fixed_width(engine)), names.len() * (COL_FIELD_W + 1)),
    }
}

/// The columns of a table that is `width` wide inside its frame.
pub fn columns(engine: &Engine, width: u16, cap: Option<usize>) -> (r: Columns)
    ensures
        r@ == layout(*engine, width as int, cap),
{
    let show_ts: bool = engine.has_timestamps();
    let show_level: bool = engine.has_severity();
    let fixed: usize = COL_LINE_W + 1 + (if show_ts {
        COL_TS_W + 1
    } else {
        0
    }) + (if show_level {
        COL_LV_W + 1
    } else {
        0
    });
    let inner: usize = if width as usize > fixed {
        width as usize - fixed
    } else {
        0
    };
    let slots: usize = inner / (COL_FIELD_W + 1);
    let room: usize = if slots > 1 {
        slots - 1
    } else {
        0
    };
    let wanted: usize = match cap {
        Some(n) => if n < room {
            n
        } else {
            room
        },
        None => room,
    };
    let names: Vec<String> = match &engine.schema {
        Some(s) => if s.ordered_fields.len() > 0 {
            s.auto_columns(wanted)
        } else {
            Vec::new()
        },
        None => Vec::new(),
    };
    let ghost view = layout(*engine, width as int, cap);
    assert(text::texts(names@) =~= view.names);
    assert(names@.len() == text::texts(names@).len());
    assert(names@.len() <= room);
    let raw_w: usize = inner - names.len() * (COL_FIELD_W + 1);
    Columns { show_ts, show_level, names, raw_w }
}

/// A blank between two cells.
pub open spec fn gap() -> SpanView {
    SpanView { text: " "@, style: Style::plain() }
}

pub open spec fn cell(text: Seq<char>, style: Style) -> Seq<SpanView> {
    seq![gap(), SpanView { text, style }]
}

fn put_cell(spans: &mut Vec<Span>, text: String, style: Style)
    ensures
        panes::span_views(final(spans)@) == panes::span_views(old(spans)@) + cell(text@, style),
{
    let ghost before = panes::span_views(spans@);
    panes::put(spans, " ".to_owned(), Style::new());
    panes::put(spans, text, style);
    assert(panes::span_views(spans@) =~= before + cell(text@, style));
}

/// The name cells of some auto-columns.
pub open spec fn name_cells(names: Seq<Seq<char>>) -> Seq<SpanView>
    decreases names.len(),
{
    if names.len() == 0 {
        Seq::empty()
    } else {
        name_cells(names.drop_last()) + cell(
            text::fitted(names.last(), COL_FIELD_W as int),
            Style::plain().with_dim().with_bold(),
        )
    }
}

/// What the header calls the raw line.
pub open spec fn raw_label(cols: ColumnsView) -> Seq<char> {
    if !cols.show_ts && !cols.show_level && cols.names.len() == 0 {
        "(plain text)"@
    } else {
        "raw"@
    }
}

/// The header row.
pub open spec fn header(cols: ColumnsView) -> RowView {
    let dim = Style::plain().with_dim();
    panes::plain_row(
        seq![SpanView { text: number::right_aligned("line"@, COL_LINE_W as int), style: dim }]
            + (if cols.show_ts {
            cell(number::left_aligned("timestamp"@, COL_TS_W as int), dim)
        } else {
            Seq::empty()
        }) + (if cols.show_level {
            cell(number::left_aligned("level"@, COL_LV_W as int), dim)
        } else {
            Seq::empty()
        }) + name_cells(cols.names) + (if cols.raw_w > 0 {
            cell(text::fitted(raw_label(cols), cols.raw_w), dim)
        } else {
            Seq::empty()
        }),
    )
}

fn header_row(cols: &Columns) -> (r: Row)
    ensures
        r@ == header(cols@),
{
    let ghost view = cols@;
    let dim: Style = Style::new().dim();
    let mut spans: Vec<Span> = Vec::new();
    panes::put(&mut spans, number::align_right("line", COL_LINE_W), dim);
    let ghost first = seq![
        SpanView { text: number::right_aligned("line"@, COL_LINE_W as int), style: dim },
    ];
    assert(panes::span_views(spans@) =~= first);
    if cols.show_ts {
        put_cell(&mut spans, number::align_left("timestamp", COL_TS_W), dim);
    }
    if cols.show_level {
        put_cell(&mut spans, number::align_left("level", COL_LV_W), dim);
    }
    let ghost head = panes::span_views(spans@);
    let ghost names = view.names;
    let mut i: usize = 0;
    assert(names.take(0) =~= Seq::empty());
    assert(head + name_cells(names.take(0)) =~= head);
    while i < cols.names.len()
        invariant
            i <= cols.names@.len(),
            names == text::texts(cols.names@),
            panes::span_views(spans@) == head + name_cells(names.take(i as int)),
        decreases cols.names@.len() - i,
    {
        assert(names.take(i + 1).drop_last() =~= names.take(i as int));
        assert(names.take(i + 1).last() == cols.names@[i as int]@);
        put_cell(
            &mut spans,
            text::truncate_padded(cols.names[i].as_str(), COL_FIELD_W),
            Style::new().dim().bold(),
        );
        assert(panes::span_views(spans@) =~= head + name_cells(names.take(i + 1)));
        i = i + 1;
    }
    assert(names.take(names.len() as int) =~= names);
    if cols.raw_w > 0 {
        let label: &str = if !cols.show_ts && !cols.show_level && cols.names.len() == 0 {
            "(plain text)"
        } else {
            "raw"
        };
        put_cell(&mut spans, text::truncate_padded(label, cols.raw_w), dim);
    }
    let r = Row { spans, style: Style::new() };
    assert(r@.spans =~= header(view).spans);
    r
}

/// The text of a JSON field of a line, without the quotes of a string; empty
/// where the line has no such field.
pub open spec fn field_text(line: Seq<u8>, name: Seq<char>) -> Seq<char> {
    match schema::raw_field(line, name) {
        Some(raw) => schema::unquoted_text(raw),
        None => Seq::empty(),
    }
}

/// The cells of some auto-columns of a line.
pub open spec fn field_cells(line: Seq<u8>, names: Seq<Seq<char>>) -> Seq<SpanView>
    decreases names.len(),
{
    if names.len() == 0 {
        Seq::empty()
    } else {
        field_cells(line, names.drop_last()) + cell(
            text::fitted(field_text(line, names.last()), COL_FIELD_W as int),
            Style::plain(),
        )
    }
}

/// The line number of a record, with a star before it where it is marked.
pub open spec fn number_cells(id: u64, marked: bool, theme: Theme) -> Seq<SpanView> {
    if marked {
        seq![
            SpanView { text: "★"@, style: theme.severity_cell(severity::WARN) },
            SpanView {
                text: number::right_aligned(number::digits(id as int), COL_LINE_W - 1),
                style: theme.dimmed(),
            },
        ]
    } else {
        seq![
            SpanView {
                text: number::right_aligned(number::digits(id as int), COL_LINE_W as int),
                style: theme.dimmed(),
            },
        ]
    }
}

/// The row of a record.
pub open spec fn record_row(
    engine: Engine,
    id: u64,
    cols: ColumnsView,
    at_cursor: bool,
    marked: bool,
    theme: Theme,
) -> RowView {
    let line = engine.bytes_of(id as int);
    let sev = histogram::severity_at(engine, id);
    RowView {
        spans: number_cells(id, marked, theme) + (if cols.show_ts {
            cell(ts_text(histogram::time_at(engine, id)), theme.severity_cell(sev))
        } else {
            Seq::empty()
        }) + (if cols.show_level {
            cell(
                number::left_aligned(severity::name_of(sev), COL_LV_W as int),
                theme.severity_cell(sev).with_bold(),
            )
        } else {
            Seq::empty()
        }) + field_cells(line, cols.names) + (if cols.raw_w > 0 {
            cell(text::shortened(text::lossy(line), cols.raw_w), Style::plain())
        } else {
            Seq::empty()
        }),
        style: if at_cursor {
            theme.cursor_row()
        } else {
            Style::plain()
        },
    }
}

fn put_record(
    engine: &Engine,
    id: u64,
    cols: &Columns,
    at_cursor: bool,
    marked: bool,
    theme: Theme,
) -> (r: Row)
    requires
        engine.wf(),
    ensures
        r@ == record_row(*engine, id, cols@, at_cursor, marked, theme),
{
    let ghost want = record_row(*engine, id, cols@, at_cursor, marked, theme);
    let line: &[u8] = engine.line_bytes(id);
    let sev: u8 = match engine.indexes.severity.get(id) {
        Some(s) => s,
        None => severity::UNKNOWN,
    };
    let ts: i64 = match engine.indexes.time.get(id) {
        Some(t) => t,
        None => TS_UNTIMED,
    };
    let digits: String = number::decimal_text(id);
    let mut spans: Vec<Span> = Vec::new();
    if marked {
        panes::put(&mut spans, "★".to_owned(), theme.severity_style(severity::WARN));
        panes::put(
            &mut spans,
            number::align_right(digits.as_str(), COL_LINE_W - 1),
            theme.hint_dim(),
        );
    } else {
        panes::put(
            &mut spans,
            number::align_right(digits.as_str(), COL_LINE_W),
            theme.hint_dim(),
        );
    }
    assert(panes::span_views(spans@) =~= number_cells(id, marked, theme));
    if cols.show_ts {
        put_cell(&mut spans, format_ts_utc(ts), theme.severity_style(sev));
    }
    if cols.show_level {
        put_cell(
            &mut spans,
            number::align_left(severity::name(sev), COL_LV_W),
            theme.severity_style(sev).bold(),
        );
    }
    let ghost head = panes::span_views(spans@);
    let ghost names = cols@.names;
    let mut i: usize = 0;
    assert(names.take(0) =~= Seq::empty());
    assert(head + field_cells(line@, names.take(0)) =~= head);
    while i < cols.names.len()
        invariant
            i <= cols.names@.len(),
            names == text::texts(cols.names@),
            panes::span_views(spans@) == head + field_cells(line@, names.take(i as int)),
        decreases cols.names@.len() - i,
    {
        assert(names.take(i + 1).drop_last() =~= names.take(i as int));
        assert(names.take(i + 1).last() == cols.names@[i as int]@);
        let value: String = match schema::project_field(line, cols.names[i].as_str()) {
            Some(raw) => text::truncate_padded(schema::unquote_if_string(raw), COL_FIELD_W),
            None => {
                let none: &str = "";
                proof {
                    reveal_strlit("");
                    assert(none@ =~= Seq::empty());
                }
                text::truncate_padded(none, COL_FIELD_W)
            },
        };
        put_cell(&mut spans, value, Style::new());
        assert(panes::span_views(spans@) =~= head + field_cells(line@, names.take(i + 1)));
        i = i + 1;
    }
    assert(names.take(names.len() as int) =~= names);
    if cols.raw_w > 0 {
        let raw: String = text::from_utf8_lossy(line);
        put_cell(&mut spans, text::shorten(raw.as_str(), cols.raw_w), Style::new());
    }
    let style: Style = if at_cursor {
        theme.cursor_row_style()
    } else {
        Style::new()
    };
    let r = Row { spans, style };
    assert(r@.spans =~= want.spans);
    r
}

/// Where the window on a view starts and how many records it shows, the
/// header taking one row.
pub open spec fn window(view: Seq<u64>, scroll_top: u64, height: int) -> (int, int) {
    let start = bound(view, scroll_top);
    let left = view.len() - start;
    (start, if height - 1 < left {
        height - 1
    } else {
        left
    })
}

/// The rows of the table.
pub open spec fn rows(
    engine: Engine,
    view: Seq<u64>,
    scroll_top: u64,
    cursor: u64,
    width: int,
    height: int,
    cap: Option<usize>,
    theme: Theme,
    marks: Seq<u64>,
) -> Seq<RowView> {
    if view.len() == 0 || height == 0 {
        seq![panes::single("no rows"@, Style::plain().with_dim())]
    } else {
        let cols = layout(engine, width, cap);
        let (start, count) = window(view, scroll_top, height);
        seq![header(cols)] + Seq::new(
            count as nat,
            |i: int|
                record_row(
                    engine,
                    view[start + i],
                    cols,
                    view[start + i] == cursor,
                    marks.contains(view[start + i]),
                    theme,
                ),
        )
    }
}

fn is_marked(marks: &[u64], id: u64) -> (r: bool)
    requires
        ascending(marks@),
    ensures
        r == marks@.contains(id),
{
    let i: usize = lower_bound(marks, id);
    proof {
        lemma_bound(marks@, id);
        if marks@.contains(id) {
            let k = choose|k: int| 0 <= k < marks@.len() && marks@[k] == id;
            if k > i {
                assert(marks@[i as int] < marks@[k]);
            }
        }
    }
    i < marks.len() && marks[i] == id
}

/// The rows of the table: a header and one row per record from `scroll_top`
/// on, as many as fit the inside of its frame.
pub fn table_rows(
    engine: &Engine,
    filtered_view: &[u64],
    scroll_top: u64,
    cursor: u64,
    width: u16,
    height: u16,
    max_columns: Option<usize>,
    theme: Theme,
    bookmarks: &[u64],
) -> (r: Vec<Row>)
    requires
        engine.wf(),
        sorted(filtered_view@),
        ascending(bookmarks@),
    ensures
        panes::row_views(r@) == rows(
            *engine,
            filtered_view@,
            scroll_top,
            cursor,
            width as int,
            height as int,
            max_columns,
            theme,
            bookmarks@,
        ),
{
    let ghost want = rows(
        *engine,
        filtered_view@,
        scroll_top,
        cursor,
        width as int,
        height as int,
        max_columns,
        theme,
        bookmarks@,
    );
    let mut out: Vec<Row> = Vec::new();
    if filtered_view.len() == 0 || height == 0 {
        assert(panes::row_views(out@) =~= Seq::empty());
        panes::put_single(&mut out, "no rows".to_owned(), Style::new().dim());
        assert(panes::row_views(out@) =~= want);
        return out;
    }
    let cols: Columns = columns(engine, width, max_columns);
    out.push(header_row(&cols));
    let start: usize = lower_bound(filtered_view, scroll_top);
    let total: usize = filtered_view.len();
    let left: usize = total - start;
    let count: usize = if (height - 1) as usize <= left {
        (height - 1) as usize
    } else {
        left
    };
    let mut i: usize = 0;
    while i < count
        invariant
            engine.wf(),
            ascending(bookmarks@),
            i <= count,
            start + count <= total == filtered_view@.len(),
            out@.len() == i + 1,
            out@[0]@ == header(cols@),
            forall|k: int|
                1 <= k <= i ==> (#[trigger] out@[k])@ == record_row(
                    *engine,
                    filtered_view@[start + k - 1],
                    cols@,
                    filtered_view@[start + k - 1] == cursor,
                    bookmarks@.contains(filtered_view@[start + k - 1]),
                    theme,
                ),
        decreases count - i,
    {
        let id: u64 = filtered_view[start + i];
        let marked: bool = is_marked(bookmarks, id);
        out.push(put_record(engine, id, &cols, id == cursor, marked, theme));
        i = i + 1;
    }
    assert(panes::row_views(out@) =~= want);
    out
}

/// The span of the k-th auto-column among its cells.
proof fn lemma_field_cell(line: Seq<u8>, names: Seq<Seq<char>>, k: int)
    requires
        0 <= k < names.len(),
    ensures
        field_cells(line, names).len() == 2 * names.len(),
        field_cells(line, names)[2 * k + 1].text == text::fitted(
            field_text(line, names[k]),
            COL_FIELD_W as int,
        ),
    decreases names.len(),
{
    let prev = names.drop_last();
    if k < prev.len() {
        lemma_field_cell(line, prev, k);
        assert(prev[k] == names[k]);
    } else {
        lemma_field_count(line, prev);
    }
}

proof fn lemma_field_count(line: Seq<u8>, names: Seq<Seq<char>>)
    ensures
        field_cells(line, names).len() == 2 * names.len(),
    decreases names.len(),
{
    if names.len() > 0 {
        lemma_field_count(line, names.drop_last());
    }
}

/// The row of a record shows, from left to right, its number, its time, its
/// level, its text in each auto-column, and its line, as far as the columns are
/// shown. A marked record has a star; the row of the cursor has its style.
pub proof fn law_row_shows_its_record(
    engine: Engine,
    id: u64,
    cols: ColumnsView,
    at_cursor: bool,
    marked: bool,
    theme: Theme,
    k: int,
)
    ensures
        ({
            let row = record_row(engine, id, cols, at_cursor, marked, theme);
            let line = engine.bytes_of(id as int);
            let i0: int = if marked {
                2
            } else {
                1
            };
            let i1: int = if cols.show_ts {
                i0 + 2
            } else {
                i0
            };
            let i2: int = if cols.show_level {
                i1 + 2
            } else {
                i1
            };
            let i3: int = i2 + 2 * cols.names.len();
            &&& row.spans.len() == (if cols.raw_w > 0 {
                i3 + 2
            } else {
                i3
            })
            &&& !marked ==> row.spans[0].text == number::right_aligned(number::digits(id as int), 9)
            &&& marked ==> row.spans[0].text == "★"@ && row.spans[1].text == number::right_aligned(
                number::digits(id as int),
                8,
            )
            &&& cols.show_ts ==> row.spans[i1 - 1].text == ts_text(histogram::time_at(engine, id))
            &&& cols.show_level ==> row.spans[i2 - 1].text == number::left_aligned(
                severity::name_of(histogram::severity_at(engine, id)),
                6,
            )
            &&& 0 <= k < cols.names.len() ==> row.spans[i2 + 2 * k + 1].text == text::fitted(
                field_text(line, cols.names[k]),
                18,
            )
            &&& cols.raw_w > 0 ==> row.spans[i3 + 1].text == text::shortened(
                text::lossy(line),
                cols.raw_w,
            )
            &&& row.style == (if at_cursor {
                theme.cursor_row()
            } else {
                Style::plain()
            })
        }),
{
    let line = engine.bytes_of(id as int);
    lemma_field_count(line, cols.names);
    if 0 <= k < cols.names.len() {
        lemma_field_cell(line, cols.names, k);
    }
}

/// The columns never take more than the width, and the line gets all that is
/// left. The time and the level are shown when most records have one; the
/// auto-columns are the most common fields, no more than the cap.
pub proof fn law_columns_fit_the_width(engine: Engine, width: int, cap: Option<usize>)
    requires
        width >= 0,
    ensures
        ({
            let cols = layout(engine, width, cap);
            let fixed: int = 10 + (if cols.show_ts {
                25int
            } else {
                0
            }) + (if cols.show_level {
                7int
            } else {
                0
            });
            &&& cols.show_ts == engine.mostly_timed()
            &&& cols.show_level == engine.mostly_levelled()
            &&& width >= fixed ==> fixed + 19 * cols.names.len() + cols.raw_w == width
            &&& width < fixed ==> cols.names.len() == 0 && cols.raw_w == 0
            &&& cap matches Some(n) ==> cols.names.len() <= n
            &&& cols.names.len() > 0 ==> cols.raw_w >= 19
            &&& engine.schema matches Some(s) ==> s.ordered_fields@.len() > 0 ==> cols.names
                == schema::picked_columns(s, column_room(engine, width, cap))
            &&& engine.schema is None ==> cols.names.len() == 0
        }),
{
    let cols = layout(engine, width, cap);
    let rest = less(width, fixed_width(engine));
    let room = column_room(engine, width, cap);
    assert(0 <= rest / 19);
    assert(cols.names.len() <= room) by {
        if let Some(s) = engine.schema {
            schema::lemma_column_count(s.ordered_fields@);
        }
    }
    assert(room <= less(rest / 19, 1));
    assert(19 * cols.names.len() <= 19 * room);
    assert(19 * (rest / 19) <= rest);
}

/// Below the header the table shows the records of the view from the scroll
/// position on, one per row, as many as there are rows for them.
pub proof fn law_table_shows_the_view_from_the_top(
    engine: Engine,
    view: Seq<u64>,
    scroll_top: u64,
    cursor: u64,
    width: int,
    height: int,
    cap: Option<usize>,
    theme: Theme,
    marks: Seq<u64>,
    first: int,
    i: int,
)
    requires
        sorted(view),
        view.len() > 0,
        height > 0,
        0 <= first <= view.len(),
        forall|k: int| 0 <= k < first ==> #[trigger] view[k] < scroll_top,
        forall|k: int| first <= k < view.len() ==> scroll_top <= #[trigger] view[k],
    ensures
        ({
            let shown = rows(engine, view, scroll_top, cursor, width, height, cap, theme, marks);
            let cols = layout(engine, width, cap);
            &&& shown.len() == 1 + if height - 1 < view.len() - first {
                height - 1
            } else {
                view.len() - first
            }
            &&& shown[0] == header(cols)
            &&& 1 <= i < shown.len() ==> shown[i] == record_row(
                engine,
                view[first + i - 1],
                cols,
                view[first + i - 1] == cursor,
                marks.contains(view[first + i - 1]),
                theme,
            )
        }),
{
    lemma_bound_is(view, scroll_top, first);
}

} // verus!
