//! The viewmodel: several views (tabs) over one engine, a prompt, and what
//! each key does to them.
//!
//! Each view is an independent filtered window over the same engine. `Tab` and
//! `Shift-Tab` switch between them; `Ctrl-T` opens a new one, always as "All"
//! with no filters carried over; `Ctrl-W` closes the current one, and closing
//! the last one quits.

pub mod effects;
pub mod filters;
pub mod input;
pub mod marks;
pub mod screen;
pub mod scrub;
pub mod view;

use vstd::prelude::*;
use vstd::string::*;

use crate::app::filters::Filters;
use crate::app::input::{Command, Effect, Event, Input, InputView, KeyCode, Mode};
use crate::app::scrub::Scrub;
use crate::app::view::{Settings, View as TabView};
use crate::engine::histogram;
use crate::engine::indexer;
use crate::engine::parse;
use crate::engine::record::severity;
use crate::engine::Engine;
use crate::io::RecordProducer;
use crate::number;
use crate::panes::table;
use crate::scan;
use crate::schema;
use crate::text;
use crate::theme::Theme;

verus! {

pub struct App<'a> {
    pub engine: Engine<'a>,
    pub source_label: String,
    pub views: Vec<TabView>,
    pub active_tab: usize,
    pub input: Option<Input>,
    /// Clickable regions of the tab bar as last drawn: first column, row,
    /// width and tab.
    pub tab_hitboxes: Vec<(u16, u16, u16, usize)>,
    /// Cap on the number of auto-columns. `None` means unbounded.
    pub max_columns: Option<usize>,
    /// Active colour theme.
    pub theme: Theme,
    /// The stats overlay is shown.
    pub stats_open: bool,
}

/// The tab after one, the first after the last.
pub open spec fn next_index(i: int, n: int) -> int {
    if i + 1 < n {
        i + 1
    } else {
        0
    }
}

/// The tab before one, the last before the first.
pub open spec fn prev_index(i: int, n: int) -> int {
    if i == 0 {
        n - 1
    } else {
        i - 1
    }
}

/// Going to the next tab and back, or back and to the next, ends where it
/// began.
pub proof fn law_tabs_cycle(i: int, n: int)
    requires
        0 <= i < n,
    ensures
        0 <= next_index(i, n) < n,
        0 <= prev_index(i, n) < n,
        prev_index(next_index(i, n), n) == i,
        next_index(prev_index(i, n), n) == i,
{
}

/// Rows still to scroll after some more, kept inside the range of the count.
pub open spec fn turned(wheel: int, by: int) -> int {
    if wheel + by > i64::MAX {
        i64::MAX as int
    } else if wheel + by < i64::MIN {
        i64::MIN as int
    } else {
        wheel + by
    }
}

fn turn(wheel: i64, by: i64) -> (r: i64)
    ensures
        r == turned(wheel as int, by as int),
{
    let sum: i128 = wheel as i128 + by as i128;
    if sum > i64::MAX as i128 {
        i64::MAX
    } else if sum < i64::MIN as i128 {
        i64::MIN
    } else {
        sum as i64
    }
}

/// A cap on the columns, one wider. No cap stays no cap.
pub open spec fn widened(cap: Option<usize>) -> Option<usize> {
    match cap {
        Some(n) => Some(
            if n < usize::MAX {
                (n + 1) as usize
            } else {
                n
            },
        ),
        None => None,
    }
}

/// A cap on the columns, one narrower. Without a cap, one less than there are.
pub open spec fn narrowed(cap: Option<usize>, offered: int) -> Option<usize> {
    let n = match cap {
        Some(n) => n as int,
        None => offered,
    };
    Some(
        if n > 0 {
            (n - 1) as usize
        } else {
            0
        },
    )
}

/// The tab whose box, from index `i` on, covers a point of the screen. The box
/// of a tab that is gone covers nothing.
pub open spec fn clicked_tab(
    boxes: Seq<(u16, u16, u16, usize)>,
    column: u16,
    row: u16,
    tabs: int,
    i: int,
) -> Option<usize>
    decreases boxes.len() - i,
{
    if !(0 <= i < boxes.len()) {
        None
    } else {
        let (x, y, w, tab) = boxes[i];
        if row == y && x <= column < x + w && tab < tabs {
            Some(tab)
        } else {
            clicked_tab(boxes, column, row, tabs, i + 1)
        }
    }
}

/// The severity tabs that a source with levels opens with: label and levels.
pub open spec fn severity_tab(i: int) -> (Seq<char>, Seq<u8>) {
    if i == 1 {
        ("Error"@, seq![severity::ERROR, severity::FATAL])
    } else if i == 2 {
        ("Warn"@, seq![severity::WARN])
    } else if i == 3 {
        ("Info"@, seq![severity::INFO])
    } else {
        ("Debug"@, seq![severity::DEBUG, severity::TRACE])
    }
}

/// A view of all records without filters.
pub open spec fn is_all_tab(engine: Engine, v: TabView) -> bool {
    &&& v.title@ == "All"@
    &&& v.filtered_view@ == filters::all_ids(engine.indexes.line.locs@.len() as int)
    &&& v.filters().none()
    &&& !v.filters().min_mode
    &&& v.severity_label@.len() == 0
    &&& v.cursor == 0
    &&& v.scroll_top == 0
    &&& v.bookmarks@.len() == 0
    &&& !v.detail_open
    &&& v.status_msg@ == view::opening_text(
        engine.indexes.line.locs@.len() as int,
        engine.indexes.parse_stats.untimed as int,
    )
    &&& v.generation == 0
    &&& v.histogram_cache is None
    &&& v.scrub is None
}

/// A view of the records of one severity tab.
pub open spec fn is_severity_tab(engine: Engine, i: int, v: TabView) -> bool {
    &&& v.title@ == severity_tab(i).0
    &&& v.settings() == (Settings {
        filters: Filters {
            regex: None,
            fields: Seq::empty(),
            levels: severity_tab(i).1,
            min_mode: false,
            range: None,
            dsl: None,
        },
        label: severity_tab(i).0,
    })
    &&& v.filtered_view@ == engine.hits(
        (crate::engine::predicate::Rule::All {
            parts: seq![
                crate::engine::predicate::Rule::SeverityIn {
                    levels: severity_tab(i).1.to_set(),
                },
            ],
        }),
        engine.indexes.line.locs@.len() as int,
    )
    &&& v.cursor == (match table::snapped(v.filtered_view@, 0) {
        Some(c) => c,
        None => 0,
    })
    &&& v.scroll_top == v.cursor
    &&& v.status_msg@ == v.settings().summary(
        v.filtered_view@.len() as int,
        engine.indexes.line.locs@.len() as int,
    )
    &&& v.generation == 1
    &&& v.bookmarks@.len() == 0
    &&& !v.detail_open
    &&& v.histogram_cache is None
    &&& v.scrub is None
}

impl<'a> App<'a> {
    /// There is an active tab, and every tab is in order.
    pub open spec fn wf(self) -> bool {
        &&& self.engine.wf()
        &&& self.active_tab < self.views@.len()
        &&& forall|i: int| 0 <= i < self.views@.len() ==> (#[trigger] self.views@[i]).wf()
        &&& forall|i: int|
            0 <= i < self.views@.len() ==> (#[trigger] self.views@[i]).cache_is_true(self.engine)
        &&& forall|i: int|
            0 <= i < self.views@.len() ==> (#[trigger] self.views@[i]).within(self.engine)
    }

    /// The active view.
    pub open spec fn current(self) -> TabView {
        self.views@[self.active_tab as int]
    }

    /// `after` differs from this state in the active view, and in nothing
    /// else.
    pub open spec fn only_view(self, after: App<'a>) -> bool {
        &&& after == (App { views: after.views, ..self })
        &&& after.views@ == self.views@.update(self.active_tab as int, after.current())
    }

    /// A tab on all records was appended and made active.
    pub open spec fn tab_opened(self, after: App<'a>) -> bool {
        &&& after.views@.len() == self.views@.len() + 1
        &&& after.views@.drop_last() == self.views@
        &&& is_all_tab(self.engine, after.views@.last())
        &&& after == (App {
            views: after.views,
            active_tab: self.views@.len() as usize,
            ..self
        })
    }

    /// The active tab was taken out; the one after it, or else the last one,
    /// is active.
    pub open spec fn tab_closed(self, after: App<'a>) -> bool {
        &&& after.views@ == self.views@.remove(self.active_tab as int)
        &&& after == (App {
            views: after.views,
            active_tab: (if self.active_tab == self.views@.len() - 1 {
                self.active_tab - 1
            } else {
                self.active_tab as int
            }) as usize,
            ..self
        })
    }

    /// The schema was derived from the filtered view; cached histograms are
    /// gone, and the status text says over how many records.
    pub open spec fn rescanned(self, after: App<'a>) -> bool {
        let n = self.current().filtered_view@.len() as int;
        let window = schema::warmup_len(n);
        let start = schema::warmup_start(n);
        &&& after == (App { engine: after.engine, views: after.views, ..self })
        &&& if n == 0 {
            after.engine == self.engine
        } else {
            self.engine.with_schema_of(
                self.engine.lines_of(
                    self.current().filtered_view@.subrange(start, start + window),
                ),
                after.engine,
            )
        }
        &&& after.views@.len() == self.views@.len()
        &&& forall|i: int|
            0 <= i < self.views@.len() ==> {
                let v = self.views@[i];
                let w = #[trigger] after.views@[i];
                &&& w == (TabView {
                    histogram_cache: None,
                    generation: v.generation.wrapping_add(1),
                    status_msg: w.status_msg,
                    ..v
                })
                &&& if i == self.active_tab {
                    w.status_msg@ == "schema rescanned over "@ + number::digits(n) + " records"@
                } else {
                    w.status_msg == v.status_msg
                }
            }
    }

    /// What `B` says when it cannot jump.
    pub open spec fn no_mark_text(self) -> Seq<char> {
        let n = self.current().bookmarks@.len();
        if n == 0 {
            "no bookmarks (press `b` to add)"@
        } else {
            "no bookmarks in the active filter ("@ + number::digits(n as int) + " hidden)"@
        }
    }

    /// How many auto-columns the schema offers.
    pub open spec fn offered_columns(self) -> int {
        match self.engine.schema {
            Some(s) => schema::column_names(s.ordered_fields@).len() as int,
            None => 0,
        }
    }

    /// What a command does to the state, to the rows still to scroll, and what
    /// it asks of the caller.
    pub open spec fn obeyed(
        self,
        command: Command,
        wheel: i64,
        after: App<'a>,
        wheel_after: i64,
        effect: Effect,
    ) -> bool {
        let v = self.current();
        let w = after.current();
        &&& match command {
            Command::Quit => effect is Quit,
            Command::CloseTab => if self.views@.len() <= 1 {
                effect is Quit
            } else {
                effect is Nothing
            },
            _ => effect is Nothing,
        }
        &&& match command {
            Command::Scroll(n) => wheel_after == turned(wheel as int, n as int),
            Command::Start => wheel_after == 0,
            Command::End => wheel_after == 0,
            Command::NextMark => wheel_after == 0,
            _ => wheel_after == wheel,
        }
        &&& match command {
            Command::Nothing => after == self,
            Command::Quit => after == self,
            Command::Scroll(_) => after == self,
            Command::OpenTab => self.tab_opened(after),
            Command::CloseTab => if self.views@.len() <= 1 {
                after == self
            } else {
                self.tab_closed(after)
            },
            Command::PrevTab => after == (App {
                active_tab: prev_index(self.active_tab as int, self.views@.len() as int) as usize,
                ..self
            }),
            Command::NextTab => after == (App {
                active_tab: next_index(self.active_tab as int, self.views@.len() as int) as usize,
                ..self
            }),
            Command::Ask(mode) => {
                &&& after == (App { input: after.input, ..self })
                &&& input::opt_input(after.input) == Some(
                    InputView { mode, text: Seq::empty() },
                )
            },
            Command::ToggleStats => after == (App { stats_open: !self.stats_open, ..self }),
            Command::WidenColumns => after == (App { max_columns: widened(self.max_columns), ..self
            }),
            Command::NarrowColumns => after == (App {
                max_columns: narrowed(self.max_columns, self.offered_columns()),
                ..self
            }),
            Command::Rescan => self.rescanned(after),
            Command::ToggleDetail => self.only_view(after) && w == (TabView {
                detail_open: !v.detail_open,
                ..v
            }),
            Command::ToggleMode => self.only_view(after) && v.mode_toggled(self.engine, w),
            Command::Severity(n) => self.only_view(after) && if n == 0 {
                v.severity_set(self.engine, Seq::empty(), Seq::empty(), w)
            } else {
                v.severity_set(
                    self.engine,
                    severity_tab(n as int).0,
                    severity_tab(n as int).1,
                    w,
                )
            },
            Command::Cancel => self.only_view(after) && v.cancelled(self.engine, w),
            Command::Scrub(by) => self.only_view(after) && v.scrubbed(by as int, w),
            Command::ZoomIn => self.only_view(after) && v.zoomed_in(w),
            Command::ZoomOut => self.only_view(after) && v.zoomed_out(self.engine, w),
            Command::ApplyScrub => self.only_view(after) && v.scrub_applied(self.engine, w),
            Command::Start => self.only_view(after) && v.moved_to_start(w),
            Command::End => self.only_view(after) && v.moved_to_end(w),
            Command::ToggleMark => self.only_view(after) && v.mark_toggled(w),
            Command::NextMark => self.only_view(after) && if v.can_jump_to_mark() {
                v.jumped_to(marks::next_mark(v.bookmarks@, v.cursor), w)
            } else {
                v.says(self.no_mark_text(), w)
            },
        }
    }

    /// What a key does while a prompt is open: `Esc` drops it, `Enter` applies
    /// it, other keys edit its text.
    pub open spec fn prompted(self, code: KeyCode, after: App<'a>, effect: Effect) -> bool {
        let p = input::opt_input(self.input)->0;
        let closed = App { input: None, ..self };
        let v = self.current();
        let w = after.current();
        &&& if code == KeyCode::Enter && p.mode == Mode::Save {
            effect matches Effect::Save(path) && path@ == p.text
        } else {
            effect is Nothing
        }
        &&& match code {
            KeyCode::Esc => after == closed,
            KeyCode::Enter => match p.mode {
                Mode::Save => after == closed,
                Mode::Search => closed.only_view(after) && v.regex_set(self.engine, p.text, w),
                Mode::Filter => closed.only_view(after) && v.field_filter_added(
                    self.engine,
                    p.text,
                    w,
                ),
                Mode::Dsl => closed.only_view(after) && v.query_set(self.engine, p.text, w),
                Mode::JumpTime => closed.only_view(after) && match parse::partial_rfc3339(p.text) {
                    Some(t) => v.jumped_to_time(self.engine, t as i64, w),
                    None => v.says("unrecognized time: '"@ + p.text + "'"@, w),
                },
            },
            KeyCode::Backspace => {
                &&& after == (App { input: after.input, ..self })
                &&& input::opt_input(after.input) == Some(
                    InputView { text: input::shortened(p.text), ..p },
                )
            },
            KeyCode::Char(c) => {
                &&& after == (App { input: after.input, ..self })
                &&& input::opt_input(after.input) == Some(InputView { text: p.text.push(c), ..p })
            },
            _ => after == self,
        }
    }

    /// What an event does.
    pub open spec fn handled(
        self,
        event: Event,
        wheel: i64,
        after: App<'a>,
        wheel_after: i64,
        effect: Effect,
    ) -> bool {
        match event {
            Event::Key(k) => if self.input is Some {
                self.prompted(k.code, after, effect) && wheel_after == wheel
            } else {
                self.obeyed(
                    input::key_command(k, self.engine.mostly_timed()),
                    wheel,
                    after,
                    wheel_after,
                    effect,
                )
            },
            Event::ScrollUp => after == self && wheel_after == turned(wheel as int, -1)
                && effect is Nothing,
            Event::ScrollDown => after == self && wheel_after == turned(wheel as int, 1)
                && effect is Nothing,
            Event::Click { column, row } => {
                &&& effect is Nothing
                &&& wheel_after == wheel
                &&& after == (App {
                    active_tab: match clicked_tab(
                        self.tab_hitboxes@,
                        column,
                        row,
                        self.views@.len() as int,
                        0,
                    ) {
                        Some(i) => i,
                        None => self.active_tab,
                    },
                    ..self
                })
            },
            Event::Other => after == self && wheel_after == wheel && effect is Nothing,
        }
    }

    /// Open the default tab set: All, then one tab per severity bucket. The
    /// severity tabs only make sense when most records have a level.
    pub fn new(
        engine: Engine<'a>,
        source_label: String,
        max_columns: Option<usize>,
        theme: Theme,
    ) -> (r: Self)
        requires
            engine.wf(),
        ensures
            r.wf(),
            r.engine == engine,
            r.source_label == source_label,
            r.max_columns == max_columns,
            r.theme == theme,
            r.active_tab == 0,
            r.input is None,
            r.tab_hitboxes@.len() == 0,
            !r.stats_open,
            r.views@.len() == if engine.mostly_levelled() {
                5int
            } else {
                1
            },
            is_all_tab(engine, r.views@[0]),
            forall|i: int|
                1 <= i < r.views@.len() ==> is_severity_tab(engine, i, #[trigger] r.views@[i]),
    {
        let mut views: Vec<TabView> = Vec::new();
        let all: TabView = TabView::new_all(&engine);
        views.push(all);
        if engine.has_severity() {
            let error: TabView = severity_view(&engine, 1);
            views.push(error);
            let warn: TabView = severity_view(&engine, 2);
            views.push(warn);
            let info: TabView = severity_view(&engine, 3);
            views.push(info);
            let debug: TabView = severity_view(&engine, 4);
            views.push(debug);
        }
        App {
            engine,
            source_label,
            views,
            active_tab: 0,
            input: None,
            tab_hitboxes: Vec::new(),
            max_columns,
            theme,
            stats_open: false,
        }
    }

    /// The next tab, after the last one the first.
    pub fn next_tab(&mut self)
        requires
            old(self).wf(),
        ensures
            final(self).wf(),
            *final(self) == (App {
                active_tab: next_index(
                    old(self).active_tab as int,
                    old(self).views@.len() as int,
                ) as usize,
                ..*old(self)
            }),
    {
        let last: usize = self.views.len() - 1;
        self.active_tab = if self.active_tab < last {
            self.active_tab + 1
        } else {
            0
        };
    }

    /// The tab before, before the first one the last.
    pub fn prev_tab(&mut self)
        requires
            old(self).wf(),
        ensures
            final(self).wf(),
            *final(self) == (App {
                active_tab: prev_index(
                    old(self).active_tab as int,
                    old(self).views@.len() as int,
                ) as usize,
                ..*old(self)
            }),
    {
        self.active_tab = if self.active_tab == 0 {
            self.views.len() - 1
        } else {
            self.active_tab - 1
        };
    }

    /// Open a tab on all records and go there.
    pub fn open_tab(&mut self)
        requires
            old(self).wf(),
        ensures
            final(self).wf(),
            old(self).tab_opened(*final(self)),
    {
        let view: TabView = TabView::new_all(&self.engine);
        self.views.push(view);
        self.active_tab = self.views.len() - 1;
        assert(self.views@.drop_last() =~= old(self).views@);
    }

    /// Close the active tab. `true`, and no change, if it is the last one.
    pub fn close_tab(&mut self) -> (r: bool)
        requires
            old(self).wf(),
        ensures
            final(self).wf(),
            r == (old(self).views@.len() <= 1),
            r ==> *final(self) == *old(self),
            !r ==> old(self).tab_closed(*final(self)),
    {
        if self.views.len() <= 1 {
            return true;
        }
        let at: usize = self.active_tab;
        let ghost before = self.views@;
        let _ = self.views.remove(at);
        assert forall|i: int| 0 <= i < self.views@.len() implies (#[trigger] self.views@[i]).wf()
            && self.views@[i].cache_is_true(self.engine) && self.views@[i].within(self.engine) by {
            if i < at {
                assert(self.views@[i] == before[i]);
            } else {
                assert(self.views@[i] == before[i + 1]);
            }
        }
        if self.active_tab >= self.views.len() {
            self.active_tab = self.views.len() - 1;
        }
        false
    }
}

impl<'a> App<'a> {
    /// Take an event. `wheel` gathers the rows to scroll; a batch of events
    /// is scrolled once, by [`App::settle`].
    pub fn handle(&mut self, event: Event, wheel: &mut i64) -> (r: Effect)
        requires
            old(self).wf(),
        ensures
            final(self).wf(),
            old(self).handled(event, *old(wheel), *final(self), *final(wheel), r),
    {
        match event {
            Event::Key(k) => {
                if self.input.is_some() {
                    return self.prompt_key(k.code);
                }
                let timed: bool = self.engine.has_timestamps();
                self.run(input::binding(k, timed), wheel)
            },
            Event::ScrollUp => {
                *wheel = turn(*wheel, -1);
                Effect::Nothing
            },
            Event::ScrollDown => {
                *wheel = turn(*wheel, 1);
                Effect::Nothing
            },
            Event::Click { column, row } => {
                if let Some(tab) = self.tab_at(column, row) {
                    self.active_tab = tab;
                }
                Effect::Nothing
            },
            Event::Other => Effect::Nothing,
        }
    }

    /// Scroll by the rows that a batch of events gathered.
    pub fn settle(&mut self, wheel: i64)
        requires
            old(self).wf(),
        ensures
            final(self).wf(),
            wheel == 0 ==> *final(self) == *old(self),
            wheel != 0 ==> old(self).only_view(*final(self)) && old(self).current().moved_by(
                wheel as int,
                final(self).current(),
            ),
    {
        if wheel != 0 {
            let at: usize = self.active_tab;
            self.views[at].move_cursor(wheel);
        }
    }

    fn tab_at(&self, column: u16, row: u16) -> (r: Option<usize>)
        ensures
            r == clicked_tab(self.tab_hitboxes@, column, row, self.views@.len() as int, 0),
            r matches Some(i) ==> i < self.views@.len(),
    {
        let mut i: usize = 0;
        while i < self.tab_hitboxes.len()
            invariant
                i <= self.tab_hitboxes@.len(),
                clicked_tab(self.tab_hitboxes@, column, row, self.views@.len() as int, 0)
                    == clicked_tab(
                    self.tab_hitboxes@,
                    column,
                    row,
                    self.views@.len() as int,
                    i as int,
                ),
            decreases self.tab_hitboxes@.len() - i,
        {
            let (x, y, w, tab) = self.tab_hitboxes[i];
            if row == y && column >= x && (column as u32) < x as u32 + w as u32 && tab
                < self.views.len() {
                return Some(tab);
            }
            i = i + 1;
        }
        None
    }

    fn prompt_key(&mut self, code: KeyCode) -> (r: Effect)
        requires
            old(self).wf(),
            old(self).input is Some,
        ensures
            final(self).wf(),
            old(self).prompted(code, *final(self), r),
    {
        let mut held: Option<Input> = None;
        core::mem::swap(&mut self.input, &mut held);
        let prompt: Input = match held {
            Some(p) => p,
            None => {
                return Effect::Nothing;
            },
        };
        match code {
            KeyCode::Esc => Effect::Nothing,
            KeyCode::Enter => self.apply(prompt),
            KeyCode::Backspace => {
                self.input = Some(prompt.erased());
                Effect::Nothing
            },
            KeyCode::Char(c) => {
                self.input = Some(prompt.typed(c));
                Effect::Nothing
            },
            _ => {
                self.input = Some(prompt);
                Effect::Nothing
            },
        }
    }

    /// Apply a prompt that was closed with `Enter`.
    fn apply(&mut self, prompt: Input) -> (r: Effect)
        requires
            old(self).wf(),
            old(self).input is None,
        ensures
            final(self).wf(),
            (App { input: Some(prompt), ..*old(self) }).prompted(
                KeyCode::Enter,
                *final(self),
                r,
            ),
    {
        let at: usize = self.active_tab;
        let (mode, text) = prompt.into_parts();
        let raw: &str = text.as_str();
        match mode {
            Mode::Search => {
                self.views[at].set_regex(raw, &self.engine);
            },
            Mode::Filter => {
                self.views[at].add_field_filter(raw, &self.engine);
            },
            Mode::JumpTime => match parse::parse_partial_rfc3339(raw) {
                Some(target) => {
                    let _ = self.views[at].jump_to_time(target, &self.engine);
                },
                None => {
                    self.views[at].status_msg =
                    "unrecognized time: '".to_owned().concat(raw).concat("'");
                },
            },
            Mode::Dsl => {
                self.views[at].set_dsl(raw, &self.engine);
            },
            Mode::Save => {
                return Effect::Save(text);
            },
        }
        Effect::Nothing
    }

    fn run(&mut self, command: Command, wheel: &mut i64) -> (r: Effect)
        requires
            old(self).wf(),
            command matches Command::Severity(n) ==> n <= 4,
        ensures
            final(self).wf(),
            old(self).obeyed(command, *old(wheel), *final(self), *final(wheel), r),
    {
        let at: usize = self.active_tab;
        match command {
            Command::Nothing => {},
            Command::Quit => {
                return Effect::Quit;
            },
            Command::OpenTab => self.open_tab(),
            Command::CloseTab => {
                if self.close_tab() {
                    return Effect::Quit;
                }
            },
            Command::PrevTab => self.prev_tab(),
            Command::NextTab => self.next_tab(),
            Command::Ask(mode) => {
                self.input = Some(Input::open(mode));
            },
            Command::ToggleDetail => {
                self.views[at].detail_open = !self.views[at].detail_open;
            },
            Command::ToggleStats => {
                self.stats_open = !self.stats_open;
            },
            Command::ToggleMode => self.views[at].toggle_severity_mode(&self.engine),
            Command::Rescan => self.rescan(),
            Command::Severity(n) => self.show_severity(n),
            Command::Cancel => self.views[at].cancel(&self.engine),
            Command::Scrub(by) => self.views[at].move_scrub(by),
            Command::ZoomIn => self.views[at].zoom_in(),
            Command::ZoomOut => self.views[at].zoom_out(&self.engine),
            Command::ApplyScrub => {
                let _ = self.views[at].apply_scrub(&self.engine);
            },
            Command::Scroll(n) => {
                *wheel = turn(*wheel, n as i64);
            },
            Command::Start => {
                self.views[at].cursor_to_start();
                *wheel = 0;
            },
            Command::End => {
                self.views[at].cursor_to_end();
                *wheel = 0;
            },
            Command::ToggleMark => self.views[at].toggle_bookmark(),
            Command::NextMark => {
                self.jump_to_mark();
                *wheel = 0;
            },
            Command::WidenColumns => {
                self.max_columns = match self.max_columns {
                    Some(n) => Some(
                        if n < usize::MAX {
                            n + 1
                        } else {
                            n
                        },
                    ),
                    None => None,
                };
            },
            Command::NarrowColumns => self.narrow_columns(),
        }
        Effect::Nothing
    }

    fn narrow_columns(&mut self)
        requires
            old(self).wf(),
        ensures
            *final(self) == (App {
                max_columns: narrowed(old(self).max_columns, old(self).offered_columns()),
                ..*old(self)
            }),
    {
        let n: usize = match self.max_columns {
            Some(n) => n,
            None => match &self.engine.schema {
                Some(s) => {
                    let names: Vec<String> = s.auto_columns(s.ordered_fields.len());
                    proof {
                        assert(text::texts(names@).len() == names@.len());
                        schema::lemma_column_count(s.ordered_fields@);
                    }
                    names.len()
                },
                None => 0,
            },
        };
        self.max_columns = Some(
            if n > 0 {
                n - 1
            } else {
                0
            },
        );
    }

    fn show_severity(&mut self, n: u8)
        requires
            old(self).wf(),
            n <= 4,
        ensures
            final(self).wf(),
            old(self).only_view(*final(self)),
            n == 0 ==> old(self).current().severity_set(
                old(self).engine,
                Seq::empty(),
                Seq::empty(),
                final(self).current(),
            ),
            n != 0 ==> old(self).current().severity_set(
                old(self).engine,
                severity_tab(n as int).0,
                severity_tab(n as int).1,
                final(self).current(),
            ),
    {
        let at: usize = self.active_tab;
        if n == 0 {
            self.views[at].clear_severity(&self.engine);
            return;
        }
        let (label, levels) = severity_set(n as usize);
        self.views[at].set_severity(label, levels.as_slice(), &self.engine);
    }

    fn jump_to_mark(&mut self)
        requires
            old(self).wf(),
        ensures
            final(self).wf(),
            old(self).only_view(*final(self)),
            if old(self).current().can_jump_to_mark() {
                old(self).current().jumped_to(
                    marks::next_mark(old(self).current().bookmarks@, old(self).current().cursor),
                    final(self).current(),
                )
            } else {
                old(self).current().says(old(self).no_mark_text(), final(self).current())
            },
    {
        let at: usize = self.active_tab;
        if !self.views[at].jump_next_bookmark() {
            let n: usize = self.views[at].bookmarks.len();
            let message: String = if n == 0 {
                "no bookmarks (press `b` to add)".to_owned()
            } else {
                "no bookmarks in the active filter (".to_owned().concat(
                    number::decimal_text(n as u64).as_str(),
                ).concat(" hidden)")
            };
            self.views[at].status_msg = message;
        }
        assert(self.views@ =~= old(self).views@.update(at as int, self.current()));
    }

    /// Derive the schema from the filtered view of the active tab.
    fn rescan(&mut self)
        requires
            old(self).wf(),
        ensures
            final(self).wf(),
            old(self).rescanned(*final(self)),
    {
        let at: usize = self.active_tab;
        let n: usize = self.views[at].filtered_view.len();
        self.engine.rescan_schema(self.views[at].filtered_view.as_slice());
        let ghost engine = self.engine;
        let mut i: usize = 0;
        while i < self.views.len()
            invariant
                i <= self.views@.len(),
                self.views@.len() == old(self).views@.len(),
                self.engine == engine,
                *self == (App { engine: self.engine, views: self.views, ..*old(self) }),
                forall|k: int|
                    i <= k < self.views@.len() ==> #[trigger] self.views@[k] == old(self).views@[k],
                forall|k: int|
                    0 <= k < i ==> #[trigger] self.views@[k] == (TabView {
                        histogram_cache: None,
                        generation: old(self).views@[k].generation.wrapping_add(1),
                        ..old(self).views@[k]
                    }),
            decreases self.views@.len() - i,
        {
            let g: u64 = self.views[i].generation;
            self.views[i].histogram_cache = None;
            self.views[i].generation = g.wrapping_add(1);
            i = i + 1;
        }
        let message: String = "schema rescanned over ".to_owned().concat(
            number::decimal_text(n as u64).as_str(),
        ).concat(" records");
        self.views[at].status_msg = message;
    }
}

/// The lines of some records, each with a newline behind it.
pub open spec fn lines_text(engine: Engine, ids: Seq<u64>) -> Seq<u8>
    decreases ids.len(),
{
    if ids.len() == 0 {
        Seq::empty()
    } else {
        lines_text(engine, ids.drop_last()) + engine.bytes_of(ids.last() as int) + seq!['\n' as u8]
    }
}

/// The bookmarks of some tabs.
pub open spec fn tab_marks(views: Seq<TabView>) -> Seq<Seq<u64>> {
    Seq::new(views.len(), |i: int| views[i].bookmarks@)
}

/// Some lists of ids as plain values.
pub open spec fn id_lists(v: Seq<Vec<u64>>) -> Seq<Seq<u64>> {
    Seq::new(v.len(), |i: int| v[i]@)
}

impl<'a> App<'a> {
    /// Ingest what a live source has to give at the moment. The filters of
    /// every tab are applied anew to the grown index; when nothing came, no
    /// tab changes.
    pub fn ingest_live<P: RecordProducer>(&mut self, producer: &mut P)
        requires
            old(self).wf(),
            old(producer).wf(),
            indexer::can_drain(old(self).engine, old(producer).remaining()),
        ensures
            final(self).wf(),
            final(producer).wf(),
            final(producer).remaining().len() == 0,
            indexer::drained(old(self).engine, old(producer).remaining(), final(self).engine),
            *final(self) == (App {
                engine: final(self).engine,
                views: final(self).views,
                ..*old(self)
            }),
            old(producer).remaining().len() == 0 ==> final(self).views == old(self).views,
            old(producer).remaining().len() > 0 ==> final(self).views@.len()
                == old(self).views@.len() && forall|i: int|
                0 <= i < final(self).views@.len() ==> (TabView {
                    histogram_cache: None,
                    ..old(self).views@[i]
                }).rebuilt(
                    final(self).engine,
                    old(self).views@[i].settings(),
                    #[trigger] final(self).views@[i],
                ),
    {
        let before: usize = self.engine.indexes.len();
        indexer::drain(producer, &mut self.engine);
        if self.engine.indexes.len() == before {
            proof {
                let a = old(self).engine;
                let b = self.engine;
                assert(a.indexes.time.ts@ =~= b.indexes.time.ts@);
                assert(a.indexes.severity.levels@ =~= b.indexes.severity.levels@);
                assert forall|i: int| 0 <= i < self.views@.len() implies (
                #[trigger] self.views@[i]).cache_is_true(b) by {
                    let v = self.views@[i];
                    assert(v.cache_is_true(a));
                    if let Some((g, w, h)) = v.histogram_cache {
                        if g == v.generation {
                            match Scrub::window(v.scrub) {
                                Some((lo, hi)) => {
                                    histogram::lemma_same_index_in_range(
                                        h,
                                        a,
                                        b,
                                        v.filtered_view@,
                                        lo,
                                        hi,
                                        w as int,
                                    );
                                },
                                None => {
                                    histogram::lemma_same_index(
                                        h,
                                        a,
                                        b,
                                        v.filtered_view@,
                                        w as int,
                                    );
                                },
                            }
                        }
                    }
                }
            }
            return;
        }
        let ghost engine = self.engine;
        assert forall|k: int| 0 <= k < self.views@.len() implies (#[trigger] self.views@[k]).within(
            engine,
        ) by {
            assert(self.views@[k].within(old(self).engine));
        }
        let mut i: usize = 0;
        while i < self.views.len()
            invariant
                engine.wf(),
                self.engine == engine,
                i <= self.views@.len(),
                self.views@.len() == old(self).views@.len(),
                *self == (App { engine: self.engine, views: self.views, ..*old(self) }),
                forall|k: int| 0 <= k < self.views@.len() ==> (#[trigger] self.views@[k]).wf(),
                forall|k: int|
                    0 <= k < self.views@.len() ==> (#[trigger] self.views@[k]).within(engine),
                forall|k: int|
                    i <= k < self.views@.len() ==> #[trigger] self.views@[k] == old(self).views@[k],
                forall|k: int|
                    0 <= k < i ==> (#[trigger] self.views@[k]).cache_is_true(engine) && (TabView {
                        histogram_cache: None,
                        ..old(self).views@[k]
                    }).rebuilt(engine, old(self).views@[k].settings(), self.views@[k]),
            decreases self.views@.len() - i,
        {
            self.views[i].histogram_cache = None;
            self.views[i].rebuild_view(&self.engine);
            i = i + 1;
        }
    }

    /// The bytes that saving the filtered view writes: one record per line.
    pub fn saved_bytes(&self) -> (r: Vec<u8>)
        requires
            self.wf(),
        ensures
            r@ == lines_text(self.engine, self.current().filtered_view@),
    {
        let ids: &Vec<u64> = &self.views[self.active_tab].filtered_view;
        let mut out: Vec<u8> = Vec::new();
        let mut i: usize = 0;
        assert(ids@.take(0) =~= Seq::empty());
        assert(out@ =~= Seq::empty());
        while i < ids.len()
            invariant
                self.engine.wf(),
                i <= ids@.len(),
                out@ == lines_text(self.engine, ids@.take(i as int)),
            decreases ids@.len() - i,
        {
            assert(ids@.take(i + 1).drop_last() =~= ids@.take(i as int));
            scan::append(&mut out, self.engine.line_bytes(ids[i]));
            out.push('\n' as u8);
            assert(out@ =~= lines_text(self.engine, ids@.take(i + 1)));
            i = i + 1;
        }
        assert(ids@.take(ids@.len() as int) =~= ids@);
        out
    }

    /// Set the status text of the active tab.
    pub fn set_status(&mut self, message: String)
        requires
            old(self).wf(),
        ensures
            final(self).wf(),
            old(self).only_view(*final(self)),
            old(self).current().says(message@, final(self).current()),
    {
        let at: usize = self.active_tab;
        self.views[at].status_msg = message;
    }

    /// The bookmarks of every tab, to be kept for the next session.
    pub fn bookmarks(&self) -> (r: Vec<Vec<u64>>)
        ensures
            id_lists(r@) == tab_marks(self.views@),
    {
        let mut out: Vec<Vec<u64>> = Vec::new();
        let mut i: usize = 0;
        while i < self.views.len()
            invariant
                i <= self.views@.len(),
                out@.len() == i,
                forall|k: int| 0 <= k < i ==> (#[trigger] out@[k])@ == self.views@[k].bookmarks@,
            decreases self.views@.len() - i,
        {
            out.push(copy_ids(&self.views[i].bookmarks));
            i = i + 1;
        }
        assert(id_lists(out@) =~= tab_marks(self.views@));
        out
    }

    /// Bring back the bookmarks of an earlier session. Lists past the last tab
    /// are ignored; tabs past the last list keep what they have.
    pub fn restore_bookmarks(&mut self, tabs: &Vec<Vec<u64>>)
        requires
            old(self).wf(),
        ensures
            final(self).wf(),
            *final(self) == (App { views: final(self).views, ..*old(self) }),
            final(self).views@.len() == old(self).views@.len(),
            forall|i: int|
                0 <= i < old(self).views@.len() ==> {
                    let v = old(self).views@[i];
                    let w = #[trigger] final(self).views@[i];
                    if i < tabs@.len() {
                        &&& w == (TabView { bookmarks: w.bookmarks, ..v })
                        &&& w.bookmarks@ == marks::sorted_marks(tabs@[i]@)
                    } else {
                        w == v
                    }
                },
    {
        let mut i: usize = 0;
        while i < self.views.len() && i < tabs.len()
            invariant
                i <= self.views@.len(),
                i <= tabs@.len(),
                self.wf(),
                *self == (App { views: self.views, ..*old(self) }),
                self.views@.len() == old(self).views@.len(),
                forall|k: int|
                    i <= k < self.views@.len() ==> #[trigger] self.views@[k] == old(self).views@[k],
                forall|k: int|
                    0 <= k < i ==> {
                        let w = #[trigger] self.views@[k];
                        &&& w == (TabView { bookmarks: w.bookmarks, ..old(self).views@[k] })
                        &&& w.bookmarks@ == marks::sorted_marks(tabs@[k]@)
                    },
            decreases self.views@.len() - i,
        {
            let restored: Vec<u64> = marks::sort_marks(&tabs[i]);
            self.views[i].bookmarks = restored;
            i = i + 1;
        }
    }
}

pub(crate) fn copy_ids(ids: &Vec<u64>) -> (r: Vec<u64>)
    ensures
        r@ == ids@,
{
    let mut out: Vec<u64> = Vec::new();
    let mut i: usize = 0;
    while i < ids.len()
        invariant
            i <= ids@.len(),
            out@ == ids@.take(i as int),
        decreases ids@.len() - i,
    {
        out.push(ids[i]);
        i = i + 1;
        assert(out@ =~= ids@.take(i as int));
    }
    assert(ids@.take(ids@.len() as int) =~= ids@);
    out
}

fn severity_set(i: usize) -> (r: (&'static str, Vec<u8>))
    requires
        1 <= i <= 4,
    ensures
        r.0@ == severity_tab(i as int).0,
        r.1@ == severity_tab(i as int).1,
{
    let mut levels: Vec<u8> = Vec::new();
    let label: &'static str = if i == 1 {
        levels.push(severity::ERROR);
        levels.push(severity::FATAL);
        "Error"
    } else if i == 2 {
        levels.push(severity::WARN);
        "Warn"
    } else if i == 3 {
        levels.push(severity::INFO);
        "Info"
    } else {
        levels.push(severity::DEBUG);
        levels.push(severity::TRACE);
        "Debug"
    };
    assert(levels@ =~= severity_tab(i as int).1);
    (label, levels)
}

fn severity_view(engine: &Engine, i: usize) -> (r: TabView)
    requires
        engine.wf(),
        1 <= i <= 4,
    ensures
        r.wf(),
        r.within(*engine),
        is_severity_tab(*engine, i as int, r),
{
    let (label, levels) = severity_set(i);
    TabView::new_with_severity(engine, label, levels.as_slice())
}

/// What is saved is the lines of the records in their order, each with a
/// newline behind it.
pub proof fn law_saved_text_is_line_by_line(engine: Engine, id: u64, ids: Seq<u64>)
    ensures
        lines_text(engine, Seq::empty()).len() == 0,
        lines_text(engine, seq![id] + ids) == engine.bytes_of(id as int) + seq!['\n' as u8]
            + lines_text(engine, ids),
    decreases ids.len(),
{
    let all = seq![id] + ids;
    if ids.len() == 0 {
        assert(all.drop_last() =~= Seq::empty());
        assert(all.last() == id);
        assert(lines_text(engine, all.drop_last()).len() == 0);
        assert(lines_text(engine, all) =~= engine.bytes_of(id as int) + seq!['\n' as u8]
            + lines_text(engine, ids));
    } else {
        law_saved_text_is_line_by_line(engine, id, ids.drop_last());
        assert(all.drop_last() =~= seq![id] + ids.drop_last());
        assert(all.last() == ids.last());
        assert(lines_text(engine, all) =~= engine.bytes_of(id as int) + seq!['\n' as u8]
            + lines_text(engine, ids));
    }
}

/// Each level that is known is shown on one severity tab: errors and what is
/// fatal on the first, warnings on the second, information on the third, and
/// what is below on the fourth.
pub proof fn law_severity_tabs_share_the_levels(level: u8)
    ensures
        severity_tab(1).1.contains(level) <==> level == severity::ERROR || level
            == severity::FATAL,
        severity_tab(2).1.contains(level) <==> level == severity::WARN,
        severity_tab(3).1.contains(level) <==> level == severity::INFO,
        severity_tab(4).1.contains(level) <==> level == severity::DEBUG || level
            == severity::TRACE,
        severity_tab(1).0 == "Error"@,
        severity_tab(2).0 == "Warn"@,
        severity_tab(3).0 == "Info"@,
        severity_tab(4).0 == "Debug"@,
{
    assert(severity_tab(1).1[0] == severity::ERROR && severity_tab(1).1[1] == severity::FATAL);
    assert(severity_tab(2).1[0] == severity::WARN);
    assert(severity_tab(3).1[0] == severity::INFO);
    assert(severity_tab(4).1[0] == severity::DEBUG && severity_tab(4).1[1] == severity::TRACE);
}

/// A tab that is closed is gone, and all others stay in their order. The one
/// that stood behind it becomes active, or the last one where it was the last.
pub proof fn law_closing_keeps_the_other_tabs(before: App, after: App, k: int)
    requires
        before.active_tab < before.views@.len(),
        before.views@.len() > 1,
        before.tab_closed(after),
        0 <= k < after.views@.len(),
    ensures
        after.views@.len() == before.views@.len() - 1,
        k < before.active_tab ==> after.views@[k] == before.views@[k],
        k >= before.active_tab ==> after.views@[k] == before.views@[k + 1],
        after.active_tab < after.views@.len(),
        before.active_tab < before.views@.len() - 1 ==> after.current() == before.views@[
            before.active_tab + 1],
        before.active_tab == before.views@.len() - 1 ==> after.current() == before.views@[
            before.active_tab - 1],
{
}

/// A tab that is opened stands last, shows every record and is active.
pub proof fn law_opened_tab_shows_all(before: App, after: App, k: int)
    requires
        before.views@.len() < usize::MAX,
        before.tab_opened(after),
        0 <= k < before.views@.len(),
    ensures
        after.views@.len() == before.views@.len() + 1,
        after.views@[k] == before.views@[k],
        after.active_tab == before.views@.len(),
        is_all_tab(before.engine, after.current()),
{
    assert(after.views@.drop_last()[k] == after.views@[k]);
}

/// One column more and one fewer undo each other. Without a cap, one fewer is
/// one less than there are, and one more leaves it without.
pub proof fn law_column_cap_moves_by_one(n: usize, offered: int)
    requires
        0 < offered <= usize::MAX,
    ensures
        n < usize::MAX ==> narrowed(widened(Some(n)), offered) == Some(n),
        n < usize::MAX ==> widened(Some(n))->0 == n + 1,
        n > 0 ==> widened(narrowed(Some(n), offered)) == Some(n),
        narrowed(Some(0), offered) == Some(0usize),
        narrowed(None, offered)->0 == offered - 1,
        widened(None) is None,
{
}

/// A rescan goes over the records of the view, at most ten thousand of them.
pub proof fn law_rescan_reads_the_view(before: App, after: App)
    requires
        before.rescanned(after),
        before.current().filtered_view@.len() > 0,
    ensures
        after.engine.schema matches Some(s) && s.records_scanned == (if
            before.current().filtered_view@.len() < 10_000 {
            before.current().filtered_view@.len() as int
        } else {
            10_000
        }),
        before.current().filtered_view@.len() <= 10_000 ==> before.engine.with_schema_of(
            before.engine.lines_of(before.current().filtered_view@),
            after.engine,
        ),
{
    let view = before.current().filtered_view@;
    if view.len() <= 10_000 {
        assert(view.subrange(0, view.len() as int) =~= view);
    }
}

} // verus!
