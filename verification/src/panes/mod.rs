//! Panes: what each part of the screen shows, as rows of styled text.
//!
//! A pane says what stands where; drawing it on a terminal is its caller's
//! work.

pub mod detail;
pub mod stats;
pub mod table;
pub mod timeline;

use vstd::prelude::*;

use crate::theme::Style;

verus! {

/// A piece of text in one style.
#[derive(Debug, Clone)]
pub struct Span {
    pub text: String,
    pub style: Style,
}

/// [`Span`] as plain values.
pub struct SpanView {
    pub text: Seq<char>,
    pub style: Style,
}

impl View for Span {
    type V = SpanView;

    open spec fn view(&self) -> SpanView {
        SpanView { text: self.text@, style: self.style }
    }
}

/// The spans of a row as plain values.
pub open spec fn span_views(s: Seq<Span>) -> Seq<SpanView> {
    Seq::new(s.len(), |i: int| s[i]@)
}

/// One row of a pane. Its style applies below those of its spans.
#[derive(Debug, Clone)]
pub struct Row {
    pub spans: Vec<Span>,
    pub style: Style,
}

/// [`Row`] as plain values.
pub struct RowView {
    pub spans: Seq<SpanView>,
    pub style: Style,
}

impl View for Row {
    type V = RowView;

    open spec fn view(&self) -> RowView {
        RowView { spans: span_views(self.spans@), style: self.style }
    }
}

/// Some rows as plain values.
pub open spec fn row_views(s: Seq<Row>) -> Seq<RowView> {
    Seq::new(s.len(), |i: int| s[i]@)
}

/// A row in no style of its own.
pub open spec fn plain_row(spans: Seq<SpanView>) -> RowView {
    RowView { spans, style: Style::plain() }
}

/// A row of one span.
pub open spec fn single(text: Seq<char>, style: Style) -> RowView {
    plain_row(seq![SpanView { text, style }])
}

/// Append a span.
pub(crate) fn put(spans: &mut Vec<Span>, text: String, style: Style)
    ensures
        span_views(final(spans)@) == span_views(old(spans)@).push(
            SpanView { text: text@, style },
        ),
{
    let ghost before = span_views(spans@);
    spans.push(Span { text, style });
    assert(span_views(spans@) =~= before.push(SpanView { text: text@, style }));
}

/// Append a row.
pub(crate) fn put_row(rows: &mut Vec<Row>, spans: Vec<Span>, style: Style)
    ensures
        row_views(final(rows)@) == row_views(old(rows)@).push(
            RowView { spans: span_views(spans@), style },
        ),
{
    let ghost before = row_views(rows@);
    rows.push(Row { spans, style });
    assert(row_views(rows@) =~= before.push(RowView { spans: span_views(spans@), style }));
}

/// Append a row of one span.
pub(crate) fn put_single(rows: &mut Vec<Row>, text: String, style: Style)
    ensures
        row_views(final(rows)@) == row_views(old(rows)@).push(single(text@, style)),
{
    let mut spans: Vec<Span> = Vec::new();
    assert(span_views(spans@) =~= Seq::empty());
    put(&mut spans, text, style);
    assert(span_views(spans@) =~= seq![SpanView { text: text@, style }]);
    put_row(rows, spans, Style::new());
}

} // verus!
