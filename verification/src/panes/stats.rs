//! Stats overlay pane: total, records per severity, time span, and the top
//! values of the chosen field.

use vstd::prelude::*;
use vstd::string::*;

use crate::engine::record::severity;
use crate::engine::stats::Stats;
use crate::number;
use crate::panes;
use crate::panes::timeline;
use crate::panes::{Row, RowView, Span, SpanView};
use crate::theme::{Style, Theme};

verus! {

/// A row of two spans.
pub open spec fn pair(a: Seq<char>, sa: Style, b: Seq<char>, sb: Style) -> RowView {
    panes::plain_row(seq![SpanView { text: a, style: sa }, SpanView { text: b, style: sb }])
}

fn put_pair(rows: &mut Vec<Row>, a: String, sa: Style, b: String, sb: Style)
    ensures
        panes::row_views(final(rows)@) == panes::row_views(old(rows)@).push(pair(a@, sa, b@, sb)),
{
    let mut spans: Vec<Span> = Vec::new();
    panes::put(&mut spans, a, sa);
    panes::put(&mut spans, b, sb);
    assert(panes::span_views(spans@) =~= pair(a@, sa, b@, sb).spans);
    panes::put_row(rows, spans, Style::new());
}

/// A row with nothing in it.
pub open spec fn blank() -> RowView {
    panes::plain_row(Seq::empty())
}

fn put_blank(rows: &mut Vec<Row>)
    ensures
        panes::row_views(final(rows)@) == panes::row_views(old(rows)@).push(blank()),
{
    let spans: Vec<Span> = Vec::new();
    assert(panes::span_views(spans@) =~= Seq::empty());
    panes::put_row(rows, spans, Style::new());
}

/// The severity rows, from the rank below `rank` + 1 down: only levels that
/// occur, so that a plain-text source shows no zeros.
pub open spec fn severity_rows(counts: Seq<u64>, rank: int, theme: Theme) -> Seq<RowView>
    decreases rank,
{
    if rank <= 0 {
        Seq::empty()
    } else {
        let below = severity_rows(counts, rank - 1, theme);
        if counts[rank] == 0 {
            below
        } else {
            seq![
                pair(
                    number::right_aligned(severity::name_of(rank as u8), 6) + ": "@,
                    theme.dimmed(),
                    number::digits(counts[rank] as int),
                    theme.severity_cell(rank as u8),
                ),
            ] + below
        }
    }
}

/// The rows of the time span.
pub open spec fn span_rows(lo: Option<i64>, hi: Option<i64>, theme: Theme) -> Seq<RowView> {
    match (lo, hi) {
        (Some(a), Some(b)) => seq![
            blank(),
            panes::single("time span:"@, Style::plain().with_bold()),
            panes::single(timeline::short_text(a), theme.dimmed()),
            panes::single(" →"@, Style::plain()),
            panes::single(timeline::short_text(b), theme.dimmed()),
        ],
        _ => Seq::empty(),
    }
}

/// Digits of the longest count, and at least one.
pub open spec fn widest(values: Seq<(String, u64)>) -> int
    decreases values.len(),
{
    if values.len() == 0 {
        1
    } else {
        let before = widest(values.drop_last());
        let n = number::digits(values.last().1 as int).len() as int;
        if n > before {
            n
        } else {
            before
        }
    }
}

/// A value cut to a number of characters, with an ellipsis for what is left
/// out.
pub open spec fn elided(s: Seq<char>, cap: int) -> Seq<char> {
    if s.len() > cap {
        s.take(
            if cap > 0 {
                cap - 1
            } else {
                0
            },
        ).push('…')
    } else {
        s
    }
}

/// The row of one value and its count.
pub open spec fn value_row(v: (String, u64), wide: int, width: int, theme: Theme) -> RowView {
    let cap = if width > wide + 3 {
        width - wide - 3
    } else {
        0
    };
    pair(
        number::right_aligned(number::digits(v.1 as int), wide) + " "@,
        theme.bright(),
        elided(v.0@, cap),
        Style::plain(),
    )
}

/// The rows of the top values.
pub open spec fn top_rows(
    values: Seq<(String, u64)>,
    field: Seq<char>,
    width: int,
    theme: Theme,
) -> Seq<RowView> {
    if values.len() == 0 {
        Seq::empty()
    } else {
        seq![
            blank(),
            panes::single("top "@ + field + ":"@, Style::plain().with_bold()),
        ] + Seq::new(
            values.len(),
            |i: int| value_row(values[i], widest(values), width, theme),
        )
    }
}

/// The rows of the overlay.
pub open spec fn rows(s: Stats, width: int, height: int, theme: Theme) -> Seq<RowView> {
    if width < 8 || height < 3 {
        Seq::empty()
    } else {
        seq![pair("total: "@, theme.dimmed(), number::digits(s.total as int), theme.bright())]
            + severity_rows(s.by_severity@, severity::FATAL as int, theme) + (if s.untimed > 0 {
            seq![
                pair(
                    "untimed: "@,
                    theme.dimmed(),
                    number::digits(s.untimed as int),
                    Style::plain(),
                ),
            ]
        } else {
            Seq::empty()
        }) + span_rows(s.t_min, s.t_max, theme) + top_rows(
            s.top_values@,
            s.top_field@,
            width,
            theme,
        )
    }
}

fn put_severities(out: &mut Vec<Row>, s: &Stats, theme: Theme)
    ensures
        panes::row_views(final(out)@) == panes::row_views(old(out)@) + severity_rows(
            s.by_severity@,
            severity::FATAL as int,
            theme,
        ),
{
    let ghost start = panes::row_views(out@);
    let ghost counts = s.by_severity@;
    let mut rank: u8 = severity::FATAL;
    while rank > 0
        invariant
            rank <= severity::FATAL,
            counts == s.by_severity@,
            start + severity_rows(counts, severity::FATAL as int, theme) == panes::row_views(out@)
                + severity_rows(counts, rank as int, theme),
        decreases rank,
    {
        let n: u64 = s.by_severity[rank as usize];
        if n != 0 {
            let label: String = number::align_right(severity::name(rank), 6).concat(": ");
            put_pair(
                out,
                label,
                theme.hint_dim(),
                number::decimal_text(n),
                theme.severity_style(rank),
            );
        }
        proof {
            assert(panes::row_views(out@) + severity_rows(counts, rank - 1, theme) =~= start
                + severity_rows(counts, severity::FATAL as int, theme));
        }
        rank = rank - 1;
    }
    assert(panes::row_views(out@) =~= start + severity_rows(
        counts,
        severity::FATAL as int,
        theme,
    ));
}

fn find_widest(values: &Vec<(String, u64)>) -> (r: usize)
    ensures
        r == widest(values@),
        1 <= r <= 20,
{
    let mut best: usize = 1;
    let mut i: usize = 0;
    assert(values@.take(0) =~= Seq::empty());
    while i < values.len()
        invariant
            i <= values@.len(),
            best == widest(values@.take(i as int)),
            1 <= best <= 20,
        decreases values@.len() - i,
    {
        assert(values@.take(i + 1).drop_last() =~= values@.take(i as int));
        let n: usize = number::decimal_text(values[i].1).as_str().unicode_len();
        if n > best {
            best = n;
        }
        i = i + 1;
    }
    assert(values@.take(values@.len() as int) =~= values@);
    best
}

fn elide(s: &str, cap: usize) -> (r: String)
    ensures
        r@ == elided(s@, cap as int),
{
    if s.unicode_len() > cap {
        let keep: usize = if cap > 0 {
            cap - 1
        } else {
            0
        };
        let mut out: String = s.substring_char(0, keep).to_owned();
        out.push('…');
        assert(out@ =~= elided(s@, cap as int));
        out
    } else {
        s.to_owned()
    }
}

fn put_top(out: &mut Vec<Row>, s: &Stats, width: u16, theme: Theme)
    ensures
        panes::row_views(final(out)@) == panes::row_views(old(out)@) + top_rows(
            s.top_values@,
            s.top_field@,
            width as int,
            theme,
        ),
{
    let ghost start = panes::row_views(out@);
    let values: &Vec<(String, u64)> = &s.top_values;
    let ghost want = top_rows(values@, s.top_field@, width as int, theme);
    if values.len() > 0 {
        put_blank(out);
        panes::put_single(
            out,
            "top ".to_owned().concat(s.top_field.as_str()).concat(":"),
            Style::new().bold(),
        );
        let wide: usize = find_widest(values);
        let cap: usize = if width as usize > wide + 3 {
            width as usize - wide - 3
        } else {
            0
        };
        assert(panes::row_views(out@) =~= start + want.take(2));
        let mut i: usize = 0;
        while i < values.len()
            invariant
                i <= values@.len(),
                want == top_rows(values@, s.top_field@, width as int, theme),
                values@.len() > 0,
                want.len() == values@.len() + 2,
                wide == widest(values@),
                1 <= wide <= 20,
                cap == (if width > wide + 3 {
                    width - wide - 3
                } else {
                    0
                }),
                panes::row_views(out@) == start + want.take(i + 2),
            decreases values@.len() - i,
        {
            let v: &(String, u64) = &values[i];
            let label: String = number::align_right(
                number::decimal_text(v.1).as_str(),
                wide,
            ).concat(" ");
            put_pair(out, label, theme.hint_bright(), elide(v.0.as_str(), cap), Style::new());
            proof {
                assert(want[i + 2] == value_row(*v, wide as int, width as int, theme));
                assert(panes::row_views(out@) =~= start + want.take(i + 3));
            }
            i = i + 1;
        }
        assert(want.take(want.len() as int) =~= want);
    } else {
        assert(start + want =~= start);
    }
}

/// The rows of the overlay, for the inside of its frame.
pub fn stats_rows(stats: &Stats, width: u16, height: u16, theme: Theme) -> (r: Vec<Row>)
    ensures
        panes::row_views(r@) == rows(*stats, width as int, height as int, theme),
{
    let ghost want = rows(*stats, width as int, height as int, theme);
    let mut out: Vec<Row> = Vec::new();
    assert(panes::row_views(out@) =~= Seq::empty());
    if width < 8 || height < 3 {
        return out;
    }
    let dim: Style = theme.hint_dim();
    put_pair(
        &mut out,
        "total: ".to_owned(),
        dim,
        number::decimal_text(stats.total),
        theme.hint_bright(),
    );
    put_severities(&mut out, stats, theme);
    if stats.untimed > 0 {
        put_pair(
            &mut out,
            "untimed: ".to_owned(),
            dim,
            number::decimal_text(stats.untimed),
            Style::new(),
        );
    }
    if let (Some(lo), Some(hi)) = (stats.t_min, stats.t_max) {
        put_blank(&mut out);
        panes::put_single(&mut out, "time span:".to_owned(), Style::new().bold());
        panes::put_single(&mut out, timeline::format_micros_short(lo), dim);
        panes::put_single(&mut out, " →".to_owned(), Style::new());
        panes::put_single(&mut out, timeline::format_micros_short(hi), dim);
    }
    put_top(&mut out, stats, width, theme);
    assert(panes::row_views(out@) =~= want);
    out
}

/// How many ranks above `r`, up to `top`, occur.
pub open spec fn ranks_above(counts: Seq<u64>, r: int, top: int) -> nat
    decreases top - r,
{
    if top <= r {
        0
    } else {
        ranks_above(counts, r, top - 1) + if counts[top] == 0 {
            0
        } else {
            1nat
        }
    }
}

proof fn lemma_severity_row(counts: Seq<u64>, r: int, top: int, theme: Theme)
    requires
        0 < r <= top,
        counts[r] > 0,
    ensures
        ranks_above(counts, r, top) < severity_rows(counts, top, theme).len(),
        severity_rows(counts, top, theme)[ranks_above(counts, r, top) as int] == pair(
            number::right_aligned(severity::name_of(r as u8), 6) + ": "@,
            theme.dimmed(),
            number::digits(counts[r] as int),
            theme.severity_cell(r as u8),
        ),
    decreases top,
{
    if r < top {
        lemma_severity_row(counts, r, top - 1, theme);
    }
}

/// The overlay starts with the number of records; then it lists each severity
/// that occurs with its count, the gravest first; then, if there are any, the
/// untimed records.
pub proof fn law_overlay_lists_the_counts(s: Stats, width: int, height: int, theme: Theme, r: int)
    requires
        width >= 8,
        height >= 3,
    ensures
        ({
            let all = rows(s, width, height, theme);
            let n = severity_rows(s.by_severity@, 6, theme).len() as int;
            &&& all.len() > n
            &&& all[0].spans[0].text == "total: "@
            &&& all[0].spans[1].text == number::digits(s.total as int)
            &&& 1 <= r <= 6 && s.by_severity@[r] > 0 ==> {
                let k = 1 + ranks_above(s.by_severity@, r, 6) as int;
                &&& 1 <= k <= n
                &&& all[k].spans[0].text == number::right_aligned(severity::name_of(r as u8), 6)
                    + ": "@
                &&& all[k].spans[1].text == number::digits(s.by_severity@[r] as int)
            }
            &&& s.untimed > 0 ==> all.len() > n + 1 && all[n + 1].spans[0].text == "untimed: "@
                && all[n + 1].spans[1].text == number::digits(s.untimed as int)
        }),
{
    if 1 <= r <= 6 && s.by_severity@[r] > 0 {
        lemma_severity_row(s.by_severity@, r, 6, theme);
    }
}

/// The top values are listed in their order, each with its count before it.
pub proof fn law_top_values_show_their_counts(
    values: Seq<(String, u64)>,
    field: Seq<char>,
    width: int,
    theme: Theme,
    i: int,
)
    requires
        0 <= i < values.len(),
        values[i].0@.len() + widest(values) + 3 <= width,
        widest(values) >= 0,
    ensures
        top_rows(values, field, width, theme)[i + 2].spans[0].text == number::right_aligned(
            number::digits(values[i].1 as int),
            widest(values),
        ) + " "@,
        top_rows(values, field, width, theme)[i + 2].spans[1].text == values[i].0@,
        top_rows(values, field, width, theme)[1].spans[0].text == "top "@ + field + ":"@,
{
}

} // verus!
