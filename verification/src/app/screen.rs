//! What the frame around the panes shows: tab bar, prompt, title and hints,
//! and how the screen is divided between them.

use vstd::prelude::*;
use vstd::string::*;

use crate::app;
use crate::app::input;
use crate::app::view::View as TabView;
use crate::app::App;
use crate::engine::histogram;
use crate::engine::stats;
use crate::engine::stats::Stats;
use crate::number;
use crate::panes;
use crate::panes::{Row, RowView, Span, SpanView};
use crate::schema;
use crate::text;
use crate::theme::{Style, Theme};

verus! {

/// A part of the screen, top to bottom.
#[derive(Debug, Clone, Copy, PartialEq, Eq, Structural)]
pub enum Pane {
    Tabs,
    Prompt,
    Timeline,
    Table,
    Status,
}

/// How many rows a part takes.
#[derive(Debug, Clone, Copy, PartialEq, Eq, Structural)]
pub enum Height {
    /// Exactly so many.
    Length(u16),
    /// What is left, and at least so many.
    Min(u16),
}

/// The parts of the screen. The tab bar is there when there is more than one
/// tab, the timeline when most records have a timestamp.
pub open spec fn screen_parts(show_tabs: bool, show_timeline: bool) -> Seq<(Pane, Height)> {
    (if show_tabs {
        seq![(Pane::Tabs, Height::Length(3))]
    } else {
        Seq::empty()
    }) + seq![(Pane::Prompt, Height::Length(1))] + (if show_timeline {
        seq![(Pane::Timeline, Height::Length(6))]
    } else {
        Seq::empty()
    }) + seq![(Pane::Table, Height::Min(3)), (Pane::Status, Height::Length(2))]
}

/// The label of a tab: its title, with a plus in min-mode.
pub open spec fn tab_label(v: TabView) -> Seq<char> {
    " "@ + v.title@ + (if v.severity_min_mode && v.severity_levels@.len() > 0 {
        "+"@
    } else {
        ""@
    }) + " "@
}

fn make_tab_label(v: &TabView) -> (r: String)
    ensures
        r@ == tab_label(*v),
{
    let suffix: &str = if v.severity_min_mode && v.severity_levels.len() > 0 {
        "+"
    } else {
        ""
    };
    " ".to_owned().concat(v.title.as_str()).concat(suffix).concat(" ")
}

/// A screen position, kept inside the range of positions.
pub open spec fn on_screen(n: int) -> u16 {
    if n > u16::MAX {
        u16::MAX
    } else {
        n as u16
    }
}

fn clip(n: usize) -> (r: u16)
    ensures
        r == on_screen(n as int),
{
    if n > u16::MAX as usize {
        u16::MAX
    } else {
        n as u16
    }
}

/// A tab bar of three rows: the active tab stands in a frame. Boxes say where
/// a click hits which tab.
pub struct TabBar {
    pub top: Seq<SpanView>,
    pub mid: Seq<SpanView>,
    pub bottom: Seq<SpanView>,
    pub boxes: Seq<(u16, u16, u16, usize)>,
    /// First column behind the bar.
    pub col: u16,
}

/// A span that frames a label's width: a left and a right character with a
/// line between.
pub open spec fn framed(left: char, fill: char, right: char, w: int) -> Seq<char> {
    seq![left] + number::repeated(fill, w) + seq![right]
}

/// The bar with a blank between two tabs.
pub open spec fn spaced(bar: TabBar) -> TabBar {
    let gap = SpanView { text: " "@, style: Style::plain() };
    TabBar {
        top: bar.top.push(gap),
        mid: bar.mid.push(gap),
        bottom: bar.bottom.push(gap),
        boxes: bar.boxes,
        col: on_screen(bar.col + 1),
    }
}

/// The bar with one more tab.
pub open spec fn with_tab(
    bar: TabBar,
    label: Seq<char>,
    tab: int,
    active: bool,
    row: u16,
    theme: Theme,
) -> TabBar {
    let w = label.len() as int;
    if active {
        let style = theme.active_tab();
        TabBar {
            top: bar.top.push(SpanView { text: framed('┌', '─', '┐', w), style }),
            mid: bar.mid.push(SpanView { text: seq!['│'] + label + seq!['│'], style }),
            bottom: bar.bottom.push(SpanView { text: framed('└', '─', '┘', w), style }),
            boxes: bar.boxes.push((bar.col, row, on_screen(w + 2), tab as usize)),
            col: on_screen(bar.col + w + 2),
        }
    } else {
        let dim = theme.dimmed();
        TabBar {
            top: bar.top.push(SpanView { text: number::repeated(' ', w + 2), style: dim }),
            mid: bar.mid.push(
                SpanView { text: " "@ + label + " "@, style: theme.inactive_tab() },
            ),
            bottom: bar.bottom.push(SpanView { text: number::repeated('─', w + 2), style: dim }),
            boxes: bar.boxes.push((on_screen(bar.col + 1), row, on_screen(w), tab as usize)),
            col: on_screen(bar.col + w + 2),
        }
    }
}

/// The bar of the first `n` tabs, starting at a column.
pub open spec fn bar_of(
    views: Seq<TabView>,
    active: int,
    x: u16,
    row: u16,
    theme: Theme,
    n: int,
) -> TabBar
    decreases n,
{
    if n <= 0 {
        TabBar {
            top: Seq::empty(),
            mid: Seq::empty(),
            bottom: Seq::empty(),
            boxes: Seq::empty(),
            col: x,
        }
    } else {
        let before = bar_of(views, active, x, row, theme, n - 1);
        let from = if n > 1 {
            spaced(before)
        } else {
            before
        };
        with_tab(from, tab_label(views[n - 1]), n - 1, n - 1 == active, row, theme)
    }
}

/// The first row of the hints.
pub open spec fn hint(key: Seq<char>, what: Seq<char>, theme: Theme) -> Seq<SpanView> {
    seq![
        SpanView { text: key, style: theme.bright() },
        SpanView { text: what, style: theme.dimmed() },
    ]
}

/// The key hints. A source with one tab has fewer of them.
pub open spec fn hints(show_tabs: bool, theme: Theme) -> Seq<SpanView> {
    hint("/"@, " search · "@, theme) + (if show_tabs {
        hint("f"@, " field=val · "@, theme) + hint(":"@, " query · "@, theme) + hint(
            "t"@,
            " time · "@,
            theme,
        ) + hint("1-4"@, " severity · "@, theme) + hint("m"@, " min-mode · "@, theme) + hint(
            "d"@,
            " detail · "@,
            theme,
        ) + hint("b/B"@, " mark/jump · "@, theme) + hint("Tab"@, " next · "@, theme)
    } else {
        hint("d"@, " context · "@, theme) + hint("b/B"@, " mark/jump · "@, theme)
    }) + hint("Esc"@, " clear · "@, theme) + hint("q"@, " quit"@, theme)
}

fn put_hint(spans: &mut Vec<Span>, key: &str, what: &str, theme: Theme)
    ensures
        panes::span_views(final(spans)@) == panes::span_views(old(spans)@) + hint(
            key@,
            what@,
            theme,
        ),
{
    let ghost before = panes::span_views(spans@);
    panes::put(spans, key.to_owned(), theme.hint_bright());
    panes::put(spans, what.to_owned(), theme.hint_dim());
    assert(panes::span_views(spans@) =~= before + hint(key@, what@, theme));
}

fn frame(left: char, fill: char, right: char, w: usize) -> (r: String)
    ensures
        r@ == framed(left, fill, right, w as int),
{
    let mut out: String = String::new();
    out.push(left);
    number::push_repeated(&mut out, fill, w);
    out.push(right);
    assert(out@ =~= framed(left, fill, right, w as int));
    out
}

fn fill(c: char, w: usize) -> (r: String)
    ensures
        r@ == number::repeated(c, w as int),
{
    let mut out: String = String::new();
    number::push_repeated(&mut out, c, w);
    assert(out@ =~= number::repeated(c, w as int));
    out
}

fn bordered(label: &str, c: char) -> (r: String)
    ensures
        r@ == seq![c] + label@ + seq![c],
{
    let mut out: String = String::new();
    out.push(c);
    out.append(label);
    out.push(c);
    assert(out@ =~= seq![c] + label@ + seq![c]);
    out
}

/// Values listed in the stats overlay.
pub const TOP_VALUES: usize = 8;

impl<'a> App<'a> {
    /// The parts of the screen.
    pub fn layout(&self) -> (r: Vec<(Pane, Height)>)
        ensures
            r@ == screen_parts(self.views@.len() > 1, self.engine.mostly_timed()),
    {
        let mut out: Vec<(Pane, Height)> = Vec::new();
        if self.views.len() > 1 {
            out.push((Pane::Tabs, Height::Length(3)));
        }
        out.push((Pane::Prompt, Height::Length(1)));
        if self.engine.has_timestamps() {
            out.push((Pane::Timeline, Height::Length(6)));
        }
        out.push((Pane::Table, Height::Min(3)));
        out.push((Pane::Status, Height::Length(2)));
        assert(out@ =~= screen_parts(self.views@.len() > 1, self.engine.mostly_timed()));
        out
    }

    /// Lay out the tab bar with its top left corner at a position, and keep
    /// the boxes for clicks. A screen with one tab has no bar and no boxes.
    pub fn tab_bar(&mut self, x: u16, y: u16) -> (r: Vec<Row>)
        requires
            old(self).wf(),
            y < u16::MAX,
        ensures
            final(self).wf(),
            *final(self) == (App { tab_hitboxes: final(self).tab_hitboxes, ..*old(self) }),
            ({
                let n = old(self).views@.len() as int;
                let bar = bar_of(
                    old(self).views@,
                    old(self).active_tab as int,
                    x,
                    (y + 1) as u16,
                    old(self).theme,
                    n,
                );
                if n > 1 {
                    &&& final(self).tab_hitboxes@ == bar.boxes
                    &&& panes::row_views(r@) == seq![
                        panes::plain_row(bar.top),
                        panes::plain_row(bar.mid),
                        panes::plain_row(bar.bottom),
                    ]
                } else {
                    final(self).tab_hitboxes@.len() == 0 && r@.len() == 0
                }
            }),
    {
        let mut rows: Vec<Row> = Vec::new();
        let mut boxes: Vec<(u16, u16, u16, usize)> = Vec::new();
        if self.views.len() <= 1 {
            self.tab_hitboxes = boxes;
            return rows;
        }
        let row: u16 = y + 1;
        let theme: Theme = self.theme;
        let mut top: Vec<Span> = Vec::new();
        let mut mid: Vec<Span> = Vec::new();
        let mut bottom: Vec<Span> = Vec::new();
        let mut col: u16 = x;
        let ghost views = self.views@;
        let ghost active = self.active_tab as int;
        let mut i: usize = 0;
        proof {
            let start = bar_of(views, active, x, row, theme, 0);
            assert(panes::span_views(top@) =~= start.top);
            assert(panes::span_views(mid@) =~= start.mid);
            assert(panes::span_views(bottom@) =~= start.bottom);
            assert(boxes@ =~= start.boxes);
        }
        while i < self.views.len()
            invariant
                *self == *old(self),
                views == self.views@,
                active == self.active_tab,
                i <= views.len(),
                panes::span_views(top@) == bar_of(views, active, x, row, theme, i as int).top,
                panes::span_views(mid@) == bar_of(views, active, x, row, theme, i as int).mid,
                panes::span_views(bottom@) == bar_of(
                    views,
                    active,
                    x,
                    row,
                    theme,
                    i as int,
                ).bottom,
                boxes@ == bar_of(views, active, x, row, theme, i as int).boxes,
                col == bar_of(views, active, x, row, theme, i as int).col,
            decreases views.len() - i,
        {
            let ghost before = bar_of(views, active, x, row, theme, i as int);
            if i > 0 {
                panes::put(&mut top, " ".to_owned(), Style::new());
                panes::put(&mut mid, " ".to_owned(), Style::new());
                panes::put(&mut bottom, " ".to_owned(), Style::new());
                col = clip_wide(col as u128 + 1);
            }
            let label: String = make_tab_label(&self.views[i]);
            let w: usize = label.as_str().unicode_len();
            if i == self.active_tab {
                let style: Style = theme.active_tab_style();
                panes::put(&mut top, frame('┌', '─', '┐', w), style);
                panes::put(&mut mid, bordered(label.as_str(), '│'), style);
                panes::put(&mut bottom, frame('└', '─', '┘', w), style);
                boxes.push((col, row, clip_wide(w as u128 + 2), i));
            } else {
                let dim: Style = theme.hint_dim();
                let blank: String = wide_fill(' ', w);
                let line: String = wide_fill('─', w);
                panes::put(&mut top, blank, dim);
                panes::put(
                    &mut mid,
                    " ".to_owned().concat(label.as_str()).concat(" "),
                    theme.inactive_tab_style(),
                );
                panes::put(&mut bottom, line, dim);
                boxes.push((clip_wide(col as u128 + 1), row, clip(w), i));
            }
            col = clip_wide(col as u128 + w as u128 + 2);
            proof {
                let after = bar_of(views, active, x, row, theme, i + 1);
                assert(panes::span_views(top@) =~= after.top);
                assert(panes::span_views(mid@) =~= after.mid);
                assert(panes::span_views(bottom@) =~= after.bottom);
                assert(boxes@ =~= after.boxes);
            }
            i = i + 1;
        }
        self.tab_hitboxes = boxes;
        panes::put_row(&mut rows, top, Style::new());
        panes::put_row(&mut rows, mid, Style::new());
        panes::put_row(&mut rows, bottom, Style::new());
        proof {
            let bar = bar_of(views, active, x, row, theme, views.len() as int);
            assert(panes::row_views(rows@) =~= seq![
                panes::plain_row(bar.top),
                panes::plain_row(bar.mid),
                panes::plain_row(bar.bottom),
            ]);
        }
        rows
    }

    /// The prompt line; nothing while no prompt is open.
    pub fn prompt_row(&self) -> (r: Option<Row>)
        ensures
            match input::opt_input(self.input) {
                Some(p) => r matches Some(row) && row@ == panes::single(
                    " "@ + input::mode_label(p.mode) + " "@ + p.text + "_"@,
                    self.theme.bright(),
                ),
                None => r is None,
            },
    {
        match &self.input {
            Some(p) => {
                let mut rows: Vec<Row> = Vec::new();
                assert(panes::row_views(rows@) =~= Seq::empty());
                panes::put_single(&mut rows, p.prompt_text(), self.theme.hint_bright());
                assert(panes::row_views(rows@).len() == rows@.len());
                assert(panes::row_views(rows@)[0] == rows@[0]@);
                rows.pop()
            },
            None => None,
        }
    }

    /// The title of the table.
    pub fn table_title(&self) -> (r: String)
        requires
            self.wf(),
        ensures
            r@ == "mgi-pulse  "@ + self.source_label@ + "  ["@ + number::digits(
                self.current().filtered_view@.len() as int,
            ) + " rows]"@,
    {
        let n: usize = self.views[self.active_tab].filtered_view.len();
        "mgi-pulse  ".to_owned().concat(self.source_label.as_str()).concat("  [").concat(
            number::decimal_text(n as u64).as_str(),
        ).concat(" rows]")
    }

    /// The two status rows: what the filters let through, and the key hints.
    pub fn status_rows(&self) -> (r: Vec<Row>)
        requires
            self.wf(),
        ensures
            panes::row_views(r@) == seq![
                panes::single(self.current().status_msg@, self.theme.dimmed()),
                panes::plain_row(hints(self.views@.len() > 1, self.theme)),
            ],
    {
        let theme: Theme = self.theme;
        let mut rows: Vec<Row> = Vec::new();
        assert(panes::row_views(rows@) =~= Seq::empty());
        panes::put_single(
            &mut rows,
            self.views[self.active_tab].status_msg.clone(),
            theme.hint_dim(),
        );
        let mut spans: Vec<Span> = Vec::new();
        assert(panes::span_views(spans@) =~= Seq::empty());
        put_hint(&mut spans, "/", " search · ", theme);
        if self.views.len() > 1 {
            put_hint(&mut spans, "f", " field=val · ", theme);
            put_hint(&mut spans, ":", " query · ", theme);
            put_hint(&mut spans, "t", " time · ", theme);
            put_hint(&mut spans, "1-4", " severity · ", theme);
            put_hint(&mut spans, "m", " min-mode · ", theme);
            put_hint(&mut spans, "d", " detail · ", theme);
            put_hint(&mut spans, "b/B", " mark/jump · ", theme);
            put_hint(&mut spans, "Tab", " next · ", theme);
        } else {
            put_hint(&mut spans, "d", " context · ", theme);
            put_hint(&mut spans, "b/B", " mark/jump · ", theme);
        }
        put_hint(&mut spans, "Esc", " clear · ", theme);
        put_hint(&mut spans, "q", " quit", theme);
        assert(panes::span_views(spans@) =~= hints(self.views@.len() > 1, theme));
        panes::put_row(&mut rows, spans, Style::new());
        assert(panes::row_views(rows@) =~= seq![
            panes::single(self.current().status_msg@, theme.dimmed()),
            panes::plain_row(hints(self.views@.len() > 1, theme)),
        ]);
        rows
    }

    /// The field whose top values the stats overlay lists: the first
    /// auto-column, if there is one.
    pub open spec fn primary_column(self) -> Seq<char> {
        match self.engine.schema {
            Some(s) => if schema::column_names(s.ordered_fields@).len() > 0 {
                schema::column_names(s.ordered_fields@)[0]
            } else {
                Seq::empty()
            },
            None => Seq::empty(),
        }
    }

    /// What the stats overlay summarises: the filtered view of the active tab.
    pub fn view_stats(&self) -> (r: Stats)
        requires
            self.wf(),
        ensures
            r.total == self.current().filtered_view@.len(),
            r.untimed == histogram::untimed_in(
                self.engine,
                self.current().filtered_view@,
            ),
            r.timed == self.current().filtered_view@.len() - histogram::untimed_in(
                self.engine,
                self.current().filtered_view@,
            ),
            r.t_min == histogram::earliest(
                self.engine,
                self.current().filtered_view@,
            ),
            r.t_max == histogram::latest(
                self.engine,
                self.current().filtered_view@,
            ),
            forall|s: int|
                0 <= s < 8 ==> #[trigger] r.by_severity@[s] == stats::with_severity(
                    self.engine,
                    self.current().filtered_view@,
                    s,
                ),
            self.primary_column().len() == 0 ==> r.top_values@.len() == 0 && r.top_field@.len() == 0,
            self.primary_column().len() > 0 ==> ({
                let t = stats::tally(
                    self.engine,
                    self.current().filtered_view@,
                    self.primary_column(),
                );
                &&& stats::is_top(r.top_values@, t.counts, TOP_VALUES as int)
                &&& r.top_field@ == self.primary_column() + if t.overflow {
                    " (high-card)"@
                } else {
                    Seq::empty()
                }
            }),
    {
        let columns: Vec<String> = match &self.engine.schema {
            Some(s) => s.auto_columns(1),
            None => Vec::new(),
        };
        proof {
            assert(text::texts(columns@).len() == columns@.len());
            if columns@.len() > 0 {
                assert(text::texts(columns@)[0] == columns@[0]@);
            }
        }
        let none: String = String::new();
        assert(none@ =~= Seq::empty());
        let field: &str = if columns.len() > 0 {
            columns[0].as_str()
        } else {
            none.as_str()
        };
        assert(field@ == self.primary_column());
        let view: &TabView = &self.views[self.active_tab];
        assert(view.within(self.engine));
        Stats::build(&self.engine, view.filtered_view.as_slice(), field, TOP_VALUES)
    }
}

fn clip_wide(n: u128) -> (r: u16)
    ensures
        r == on_screen(n as int),
{
    if n > u16::MAX as u128 {
        u16::MAX
    } else {
        n as u16
    }
}

fn wide_fill(c: char, w: usize) -> (r: String)
    ensures
        r@ == number::repeated(c, w + 2),
{
    let mut out: String = fill(c, w);
    out.push(c);
    out.push(c);
    assert(out@ =~= number::repeated(c, w + 2));
    out
}

/// The boxes of a tab bar stand one behind the other, each for its own tab.
proof fn lemma_boxes_in_line(
    views: Seq<TabView>,
    active: int,
    x: u16,
    row: u16,
    theme: Theme,
    n: int,
)
    requires
        0 <= n <= views.len() <= usize::MAX,
        bar_of(views, active, x, row, theme, n).col < u16::MAX,
    ensures
        ({
            let bar = bar_of(views, active, x, row, theme, n);
            &&& bar.boxes.len() == n
            &&& forall|i: int|
                0 <= i < n ==> {
                    let b = #[trigger] bar.boxes[i];
                    b.1 == row && b.3 == i && b.0 + b.2 <= bar.col
                }
            &&& forall|i: int, j: int|
                0 <= i < j < n ==> (#[trigger] bar.boxes[i]).0 + bar.boxes[i].2
                    <= (#[trigger] bar.boxes[j]).0
        }),
    decreases n,
{
    if n > 0 {
        let before = bar_of(views, active, x, row, theme, n - 1);
        let after = bar_of(views, active, x, row, theme, n);
        lemma_boxes_in_line(views, active, x, row, theme, n - 1);
        assert forall|i: int| 0 <= i < n implies ({
            let b = #[trigger] after.boxes[i];
            b.1 == row && b.3 == i && b.0 + b.2 <= after.col
        }) by {
            if i < n - 1 {
                assert(after.boxes[i] == before.boxes[i]);
            }
        }
        assert forall|i: int, j: int| 0 <= i < j < n implies (#[trigger] after.boxes[i]).0
            + after.boxes[i].2 <= (#[trigger] after.boxes[j]).0 by {
            assert(after.boxes[i] == before.boxes[i]);
            if j < n - 1 {
                assert(after.boxes[j] == before.boxes[j]);
            }
        }
    }
}

proof fn lemma_clicked_from(
    boxes: Seq<(u16, u16, u16, usize)>,
    column: u16,
    row: u16,
    tabs: int,
    i: int,
    k: int,
)
    requires
        0 <= i <= k < boxes.len(),
        boxes[k].1 == row,
        boxes[k].0 <= column < boxes[k].0 + boxes[k].2,
        boxes[k].3 == k,
        k < tabs,
        forall|j: int| i <= j < k ==> (#[trigger] boxes[j]).0 + boxes[j].2 <= boxes[k].0,
    ensures
        app::clicked_tab(boxes, column, row, tabs, i) == Some(k as usize),
    decreases k - i,
{
    if i < k {
        assert(boxes[i].0 + boxes[i].2 <= boxes[k].0);
        lemma_clicked_from(boxes, column, row, tabs, i + 1, k);
    }
}

/// A click on the label of a tab goes to that tab, on any bar that fits the
/// range of screen positions.
pub proof fn law_click_hits_its_tab(
    views: Seq<TabView>,
    active: int,
    x: u16,
    row: u16,
    theme: Theme,
    k: int,
    column: u16,
)
    requires
        0 <= k < views.len() <= usize::MAX,
        bar_of(views, active, x, row, theme, views.len() as int).col < u16::MAX,
        ({
            let b = bar_of(views, active, x, row, theme, views.len() as int).boxes[k];
            b.0 <= column < b.0 + b.2
        }),
    ensures
        app::clicked_tab(
            bar_of(views, active, x, row, theme, views.len() as int).boxes,
            column,
            row,
            views.len() as int,
            0,
        ) == Some(k as usize),
{
    let n = views.len() as int;
    let boxes = bar_of(views, active, x, row, theme, n).boxes;
    lemma_boxes_in_line(views, active, x, row, theme, n);
    assert(boxes[k].3 == k);
    assert forall|j: int| 0 <= j < k implies (#[trigger] boxes[j]).0 + boxes[j].2
        <= boxes[k].0 by {}
    lemma_clicked_from(boxes, column, row, n, 0, k);
}

/// The screen ends in the table and two rows of status. A bar of tabs stands
/// first where there are several, and a timeline right above the table where
/// there are times.
pub proof fn law_parts_of_the_screen(show_tabs: bool, show_timeline: bool)
    ensures
        ({
            let parts = screen_parts(show_tabs, show_timeline);
            let n = parts.len() as int;
            let tabs = if show_tabs { 1int } else { 0 };
            let timeline = if show_timeline { 1int } else { 0 };
            &&& n == 3 + tabs + timeline
            &&& parts[n - 1] == (Pane::Status, Height::Length(2))
            &&& parts[n - 2] == (Pane::Table, Height::Min(3))
            &&& show_timeline ==> parts[n - 3] == (Pane::Timeline, Height::Length(6))
            &&& show_tabs ==> parts[0] == (Pane::Tabs, Height::Length(3))
            &&& parts[tabs] == (Pane::Prompt, Height::Length(1))
        }),
{
}

/// A tab shows its title, and a plus where its levels are a minimum.
pub proof fn law_tab_shows_its_title(v: TabView)
    ensures
        v.severity_min_mode && v.severity_levels@.len() > 0 ==> tab_label(v) == seq![' '] + v.title@
            + seq!['+', ' '],
        !(v.severity_min_mode && v.severity_levels@.len() > 0) ==> tab_label(v) == seq![' ']
            + v.title@ + seq![' '],
{
    reveal_strlit(" ");
    reveal_strlit("+");
    reveal_strlit("");
    assert(" "@ =~= seq![' ']);
    assert("+"@ =~= seq!['+']);
    assert(""@ =~= Seq::<char>::empty());
    assert(tab_label(v) =~= seq![' '] + v.title@ + (if v.severity_min_mode
        && v.severity_levels@.len() > 0 {
        seq!['+', ' ']
    } else {
        seq![' ']
    }));
}

/// The keys that the hints name, in order.
pub proof fn law_hints_name_the_keys(theme: Theme, i: int)
    ensures
        ({
            let keys = seq![
                "/"@,
                "f"@,
                ":"@,
                "t"@,
                "1-4"@,
                "m"@,
                "d"@,
                "b/B"@,
                "Tab"@,
                "Esc"@,
                "q"@,
            ];
            &&& hints(true, theme).len() == 2 * keys.len()
            &&& 0 <= i < keys.len() ==> hints(true, theme)[2 * i].text == keys[i]
                && hints(true, theme)[2 * i].style == theme.bright()
                && hints(true, theme)[2 * i + 1].style == theme.dimmed()
        }),
        ({
            let keys = seq!["/"@, "d"@, "b/B"@, "Esc"@, "q"@];
            &&& hints(false, theme).len() == 2 * keys.len()
            &&& 0 <= i < keys.len() ==> hints(false, theme)[2 * i].text == keys[i]
        }),
{
}

/// The field that the overlay looks into is the most common column.
pub proof fn law_overlay_looks_into_the_first_column(app: App, s: schema::LockedSchema)
    requires
        app.engine.schema == Some(s),
    ensures
        schema::picked_columns(s, 1).len() == 1 ==> app.primary_column() == schema::picked_columns(
            s,
            1,
        )[0],
        schema::picked_columns(s, 1).len() == 0 ==> app.primary_column().len() == 0,
{
}

} // verus!
