//! One tab's worth of state: an independent filtered window over the engine.
//!
//! Cursor and scroll position are always logical `line_id`s, never row indexes
//! in the filtered view. When a filter change evicts the cursor's line, the
//! cursor snaps to the closest surviving one: it never resets to the top.

use vstd::prelude::*;
use vstd::string::*;
use vstd::view::View as Viewed;

use crate::app::filters;
use crate::app::filters::Filters;
use crate::app::marks;
use crate::app::scrub;
use crate::app::scrub::Scrub;
use crate::engine::dsl;
use crate::engine::histogram;
use crate::engine::histogram::Histogram;
use crate::engine::predicate;
use crate::engine::predicate::{
    AndPredicate, AnyPredicate, FieldEqualsPredicate, Predicate, RegexBytesPredicate, Rule,
    SeverityInPredicate, TimeRangePredicate,
};
use crate::engine::query;
use crate::engine::record::TS_UNTIMED;
use crate::engine::Engine;
use crate::number;
use crate::panes::table;
use crate::panes::timeline;
use crate::text;

verus! {

/// One tab's state. Everything that can differ between tabs lives here.
pub struct View {
    pub title: String,
    pub filtered_view: Vec<u64>,
    pub cursor: u64,
    pub scroll_top: u64,
    pub regex_filter: Option<String>,
    pub field_filters: Vec<(String, String)>,
    /// Last successfully compiled query, if any, as its source text.
    pub dsl_query: Option<String>,
    /// Severity set to show; empty means no severity filter. When
    /// `severity_min_mode` is on, the set is expanded at filter time to "this
    /// and above"; the set itself is unchanged, so flipping the mode back snaps
    /// to what was chosen.
    pub severity_levels: Vec<u8>,
    pub severity_min_mode: bool,
    /// First and last instant to show.
    pub time_range: Option<(i64, i64)>,
    /// Label for the current severity selection. Empty when there is none.
    pub severity_label: String,
    pub detail_open: bool,
    pub status_msg: String,
    /// Cached histogram, keyed by generation and width. Two different filters
    /// that keep the same number of records must not share it.
    pub histogram_cache: Option<(u64, u16, Histogram)>,
    /// Changes every time the filter set changes.
    pub generation: u64,
    /// Cursor on the timeline.
    pub scrub: Option<Scrub>,
    /// Bookmarked ids, ascending.
    pub bookmarks: Vec<u64>,
}

/// The first id of a view, from index `i` on, whose record is timed at or after
/// a point in time.
pub open spec fn first_at_or_after(engine: Engine, view: Seq<u64>, target: i64, i: int) -> Option<
    u64,
>
    decreases view.len() - i,
{
    if !(0 <= i < view.len()) {
        None
    } else if histogram::time_at(engine, view[i]) != TS_UNTIMED && histogram::time_at(
        engine,
        view[i],
    ) >= target {
        Some(view[i])
    } else {
        first_at_or_after(engine, view, target, i + 1)
    }
}

/// The top row that keeps a cursor inside a window of `visible` rows.
pub open spec fn scrolled(view: Seq<u64>, top: u64, cursor: u64, visible: int) -> u64 {
    let window = if visible < 1 {
        1
    } else {
        visible
    };
    let top_i = table::bound(view, top);
    let cur_i = table::bound(view, cursor);
    if view.len() == 0 {
        top
    } else if cur_i < top_i {
        cursor
    } else if cur_i >= top_i + window {
        view[cur_i + 1 - window]
    } else {
        top
    }
}

/// There is a row to scroll to: there is none for a cursor behind the last row
/// where the window has one row and does not start behind the last one too.
pub open spec fn can_scroll(view: Seq<u64>, top: u64, cursor: u64, visible: int) -> bool {
    table::bound(view, cursor) < view.len() || visible > 1 || table::bound(view, top) >= view.len()
}

/// An index moved by `delta` and kept inside a list.
pub open spec fn clamped(i: int, delta: int, len: int) -> int {
    if i + delta < 0 {
        0
    } else if i + delta >= len {
        len - 1
    } else {
        i + delta
    }
}

/// A view's filters, and the label of its severity selection.
#[verifier::ext_equal]
pub struct Settings {
    pub filters: Filters,
    pub label: Seq<char>,
}

/// What the status bar calls the field filters.
pub open spec fn field_parts(fields: Seq<(Seq<char>, Seq<char>)>) -> Seq<Seq<char>> {
    Seq::new(fields.len(), |i: int| fields[i].0 + "="@ + fields[i].1)
}

/// What the status bar calls a stretch of time.
pub open spec fn range_parts(range: Option<(i64, i64)>) -> Seq<Seq<char>> {
    match range {
        Some((lo, hi)) => seq![timeline::short_text(lo) + " .. "@ + timeline::short_text(hi)],
        None => Seq::empty(),
    }
}

impl Settings {
    /// What the status bar calls the filters, one by one.
    pub open spec fn parts(self) -> Seq<Seq<char>> {
        let label = if self.label.len() == 0 {
            Seq::empty()
        } else if self.filters.min_mode {
            seq![self.label + "+"@]
        } else {
            seq![self.label]
        };
        let regex = match self.filters.regex {
            Some(re) => seq!["/"@ + re + "/"@],
            None => Seq::empty(),
        };
        let query = match self.filters.dsl {
            Some(q) => seq![":"@ + q],
            None => Seq::empty(),
        };
        label + regex + field_parts(self.filters.fields) + range_parts(self.filters.range) + query
    }

    /// The status text of a view with `hits` of `total` records.
    pub open spec fn summary(self, hits: int, total: int) -> Seq<char> {
        if self.filters.none() {
            number::digits(hits) + " records (no filter)"@
        } else {
            filters::and_joined(self.parts()) + "  "@ + number::digits(hits) + " matches of "@
                + number::digits(total)
        }
    }
}

/// The status text of a fresh view.
pub open spec fn opening_text(total: int, untimed: int) -> Seq<char> {
    if total == 0 {
        "no records loaded"@
    } else if untimed > 0 {
        number::digits(total) + " records · "@ + number::digits(untimed) + " untimed"@
    } else {
        number::digits(total) + " records"@
    }
}

impl View {
    /// The view lists ids in ascending order, as do the bookmarks, the levels
    /// are ranks, and the scrub is in order.
    pub open spec fn wf(self) -> bool {
        &&& table::ascending(self.filtered_view@)
        &&& table::ascending(self.bookmarks@)
        &&& forall|i: int|
            0 <= i < self.severity_levels@.len() ==> #[trigger] self.severity_levels@[i] < 8
        &&& self.scrub matches Some(s) ==> s.wf()
    }

    /// Every id in the view is that of an indexed record.
    pub open spec fn within(self, engine: Engine) -> bool {
        forall|i: int|
            0 <= i < self.filtered_view@.len() ==> (#[trigger] self.filtered_view@[i])
                < engine.indexes.line.locs@.len()
    }

    pub open spec fn filters(self) -> Filters {
        Filters {
            regex: text::opt_view(self.regex_filter),
            fields: filters::pair_texts(self.field_filters@),
            levels: self.severity_levels@,
            min_mode: self.severity_min_mode,
            range: self.time_range,
            dsl: text::opt_view(self.dsl_query),
        }
    }

    pub open spec fn settings(self) -> Settings {
        Settings { filters: self.filters(), label: self.severity_label@ }
    }

    /// The histogram of what the view shows: of a zoomed timeline's window, or
    /// of all of it.
    pub open spec fn is_shown(self, engine: Engine, bars: int, h: Histogram) -> bool {
        match Scrub::window(self.scrub) {
            Some((lo, hi)) => h.is_of_range(engine, self.filtered_view@, lo, hi, bars),
            None => h.is_of(engine, self.filtered_view@, bars),
        }
    }

    /// A histogram cached under the current generation is that of the current
    /// view.
    pub open spec fn cache_is_true(self, engine: Engine) -> bool {
        self.histogram_cache matches Some((g, w, h)) ==> g == self.generation ==> self.is_shown(
            engine,
            w as int,
            h,
        )
    }

    /// Nothing but the filters, what they let through and the position in it
    /// differs.
    pub open spec fn same_tab(self, other: View) -> bool {
        &&& self.title == other.title
        &&& self.detail_open == other.detail_open
        &&& self.bookmarks == other.bookmarks
        &&& self.scrub == other.scrub
    }

    /// `after` is this view under other settings: filtered anew, with the
    /// cursor snapped to the closest survivor; or, where a pattern or a query
    /// does not compile, as it was, with a message.
    pub open spec fn rebuilt(self, engine: Engine, settings: Settings, after: View) -> bool {
        let total = engine.indexes.line.locs@.len() as int;
        &&& after.settings() == settings
        &&& self.same_tab(after)
        &&& match settings.filters.rules() {
            Err(message) => {
                &&& after.status_msg@ == message
                &&& after.filtered_view == self.filtered_view
                &&& after.cursor == self.cursor
                &&& after.scroll_top == self.scroll_top
                &&& after.histogram_cache == self.histogram_cache
                &&& after.generation == self.generation
            },
            Ok(rules) => {
                &&& after.filtered_view@ == engine.hits((Rule::All { parts: rules }), total)
                &&& after.status_msg@ == settings.summary(
                    after.filtered_view@.len() as int,
                    total,
                )
                &&& (after.cursor, after.scroll_top) == (match table::snapped(
                    after.filtered_view@,
                    self.cursor,
                ) {
                    Some(c) => (c, c),
                    None => (self.cursor, self.scroll_top),
                })
                &&& after.histogram_cache is None
                &&& after.generation == self.generation.wrapping_add(1)
            },
        }
    }

    /// `after` is this view with another status text.
    pub open spec fn says(self, message: Seq<char>, after: View) -> bool {
        after == (View { status_msg: after.status_msg, ..self }) && after.status_msg@ == message
    }

    /// `after` is this view with the cursor and the top row at one line.
    pub open spec fn jumped_to(self, id: u64, after: View) -> bool {
        after == (View { cursor: id, scroll_top: id, ..self })
    }

    /// The mark at the cursor was flipped.
    pub open spec fn mark_toggled(self, after: View) -> bool {
        &&& after == (View { bookmarks: after.bookmarks, ..self })
        &&& after.bookmarks@ == marks::toggled(self.bookmarks@, self.cursor)
    }

    /// There is a next bookmark, and the filters let it through.
    pub open spec fn can_jump_to_mark(self) -> bool {
        self.bookmarks@.len() > 0 && self.filtered_view@.contains(
            marks::next_mark(self.bookmarks@, self.cursor),
        )
    }

    /// The cursor moved by a number of rows, kept inside the view.
    pub open spec fn moved_by(self, delta: int, after: View) -> bool {
        let view = self.filtered_view@;
        let i = clamped(table::bound(view, self.cursor), delta, view.len() as int);
        after == if view.len() == 0 {
            self
        } else {
            View {
                cursor: view[i],
                scroll_top: scrolled(view, self.scroll_top, view[i], 20),
                ..self
            }
        }
    }

    /// The cursor moved to the first row.
    pub open spec fn moved_to_start(self, after: View) -> bool {
        if self.filtered_view@.len() == 0 {
            after == self
        } else {
            self.jumped_to(self.filtered_view@[0], after)
        }
    }

    /// The cursor moved to the last row, with a page above it.
    pub open spec fn moved_to_end(self, after: View) -> bool {
        let view = self.filtered_view@;
        let top = if view.len() < 20 {
            0
        } else {
            view.len() - 20
        };
        after == if view.len() == 0 {
            self
        } else {
            View { cursor: view[view.len() - 1], scroll_top: view[top], ..self }
        }
    }

    /// The cursor jumped to the first record at or after a point in time, or
    /// the status text says that there is none.
    pub open spec fn jumped_to_time(self, engine: Engine, target: i64, after: View) -> bool {
        match first_at_or_after(engine, self.filtered_view@, target, 0) {
            Some(id) => self.jumped_to(id, after),
            None => if self.filtered_view@.len() == 0 {
                after == self
            } else {
                self.says("no records at/after that time"@, after)
            },
        }
    }

    /// Filtered by other severities.
    pub open spec fn severity_set(
        self,
        engine: Engine,
        label: Seq<char>,
        levels: Seq<u8>,
        after: View,
    ) -> bool {
        self.rebuilt(
            engine,
            Settings { filters: Filters { levels, ..self.filters() }, label },
            after,
        )
    }

    /// Min-mode was switched.
    pub open spec fn mode_toggled(self, engine: Engine, after: View) -> bool {
        self.rebuilt(
            engine,
            Settings {
                filters: Filters { min_mode: !self.severity_min_mode, ..self.filters() },
                ..self.settings()
            },
            after,
        )
    }

    /// Filtered by another regex; by none when it is empty.
    pub open spec fn regex_set(self, engine: Engine, pattern: Seq<char>, after: View) -> bool {
        let regex = if pattern.len() == 0 {
            None
        } else {
            Some(pattern)
        };
        self.rebuilt(
            engine,
            Settings { filters: Filters { regex, ..self.filters() }, ..self.settings() },
            after,
        )
    }

    /// Filtered by one more field, or the status text says what is wrong.
    pub open spec fn field_filter_added(self, engine: Engine, raw: Seq<char>, after: View) -> bool {
        match field_value(raw) {
            Err(message) => self.says(message, after),
            Ok(pair) => self.rebuilt(
                engine,
                Settings {
                    filters: Filters {
                        fields: self.filters().fields.push(pair),
                        ..self.filters()
                    },
                    ..self.settings()
                },
                after,
            ),
        }
    }

    /// Filtered by another query; by none when it is blank. One that does not
    /// compile changes the status text alone.
    pub open spec fn query_set(self, engine: Engine, source: Seq<char>, after: View) -> bool {
        let q = text::trimmed(source);
        if q.len() == 0 {
            self.rebuilt(
                engine,
                Settings { filters: Filters { dsl: None, ..self.filters() }, ..self.settings() },
                after,
            )
        } else {
            match dsl::query(text::enc(q)) {
                Ok(rule) => self.rebuilt(
                    engine,
                    Settings {
                        filters: Filters { dsl: Some(q), ..self.filters() },
                        ..self.settings()
                    },
                    after,
                ),
                Err(e) => self.says("dsl error: "@ + e, after),
            }
        }
    }

    /// All filters are gone. Min-mode stays as it was.
    pub open spec fn filters_cleared(self, engine: Engine, after: View) -> bool {
        self.rebuilt(
            engine,
            Settings {
                filters: Filters {
                    regex: None,
                    fields: Seq::empty(),
                    levels: Seq::empty(),
                    range: None,
                    dsl: None,
                    ..self.filters()
                },
                label: Seq::empty(),
            },
            after,
        )
    }

    /// Filtered by another stretch of time.
    pub open spec fn range_set(self, engine: Engine, range: (i64, i64), after: View) -> bool {
        self.rebuilt(
            engine,
            Settings {
                filters: Filters { range: Some(range), ..self.filters() },
                ..self.settings()
            },
            after,
        )
    }

    /// The cursor on the timeline once it is put there: where it is, or in the
    /// middle of the histogram last drawn.
    pub open spec fn scrub_opened(self) -> Option<Scrub> {
        match self.scrub {
            Some(s) => Some(s),
            None => match self.histogram_cache {
                Some((_, _, h)) => if scrub::can_scrub(h.bins@.len() as int, h.t_max) && h.t_min
                    <= h.t_max {
                    Some(Scrub::opened(h.bins@.len() as int, h.t_min, h.t_max))
                } else {
                    None
                },
                None => None,
            },
        }
    }

    /// The cursor on the timeline moved by some bars; or it was put there.
    pub open spec fn scrubbed(self, by: int, after: View) -> bool {
        after == (View {
            scrub: match self.scrub {
                Some(s) => Some(s.moved(by)),
                None => self.scrub_opened(),
            },
            ..self
        })
    }

    /// The timeline shows half as much.
    pub open spec fn zoomed_in(self, after: View) -> bool {
        after == match self.scrub_opened() {
            Some(s) => View { scrub: Some(s.closer()), histogram_cache: None, ..self },
            None => self,
        }
    }

    /// The timeline shows twice as much, or all there is.
    pub open spec fn zoomed_out(self, engine: Engine, after: View) -> bool {
        let view = self.filtered_view@;
        after == match (self.scrub_opened(), histogram::earliest(engine, view)) {
            (Some(s), Some(first)) => {
                let last = histogram::latest(engine, view)->0;
                if last < i64::MAX {
                    View { scrub: Some(s.wider(first, last)), histogram_cache: None, ..self }
                } else {
                    View { scrub: Some(s), ..self }
                }
            },
            (s, _) => View { scrub: s, ..self },
        }
    }

    /// The view without a cursor on its timeline. A histogram of a window goes
    /// with it.
    pub open spec fn scrub_dropped(self) -> View {
        View {
            scrub: None,
            histogram_cache: if Scrub::window(self.scrub) is Some {
                None
            } else {
                self.histogram_cache
            },
            ..self
        }
    }

    /// Filtered by what the cursor on the timeline selected.
    pub open spec fn scrub_applied(self, engine: Engine, after: View) -> bool {
        match self.scrub {
            Some(s) => self.scrub_dropped().range_set(engine, s.selection(), after),
            None => after == self,
        }
    }

    /// The cursor on the timeline is gone; or, where there was none, the
    /// filters are.
    pub open spec fn cancelled(self, engine: Engine, after: View) -> bool {
        if self.scrub is Some {
            after == self.scrub_dropped()
        } else {
            self.filters_cleared(engine, after)
        }
    }

    /// A view of all records, without filters.
    pub fn new_all(engine: &Engine) -> (r: Self)
        requires
            engine.wf(),
        ensures
            r.wf(),
            r.within(*engine),
            r.title@ == "All"@,
            r.filtered_view@ == filters::all_ids(engine.indexes.line.locs@.len() as int),
            r.cursor == 0,
            r.scroll_top == 0,
            r.filters() == (Filters {
                regex: None,
                fields: Seq::empty(),
                levels: Seq::empty(),
                min_mode: false,
                range: None,
                dsl: None,
            }),
            r.severity_label@.len() == 0,
            !r.detail_open,
            r.status_msg@ == opening_text(
                engine.indexes.line.locs@.len() as int,
                engine.indexes.parse_stats.untimed as int,
            ),
            r.histogram_cache is None,
            r.generation == 0,
            r.scrub is None,
            r.bookmarks@.len() == 0,
    {
        let total: usize = engine.indexes.len();
        let untimed: u64 = engine.indexes.parse_stats.untimed;
        let status_msg: String = if total == 0 {
            "no records loaded".to_owned()
        } else {
            let mut s: String = number::decimal_text(total as u64);
            if untimed > 0 {
                s.append(" records · ");
                s.append(number::decimal_text(untimed).as_str());
                s.append(" untimed");
            } else {
                s.append(" records");
            }
            s
        };
        let r = View {
            title: "All".to_owned(),
            filtered_view: list_all(total),
            cursor: 0,
            scroll_top: 0,
            regex_filter: None,
            field_filters: Vec::new(),
            dsl_query: None,
            severity_levels: Vec::new(),
            severity_min_mode: false,
            time_range: None,
            severity_label: String::new(),
            detail_open: false,
            status_msg,
            histogram_cache: None,
            generation: 0,
            scrub: None,
            bookmarks: Vec::new(),
        };
        assert(r.filters() =~~= (Filters {
            regex: None,
            fields: Seq::empty(),
            levels: Seq::empty(),
            min_mode: false,
            range: None,
            dsl: None,
        }));
        r
    }

    /// Toggle the bookmark on the focused record.
    pub fn toggle_bookmark(&mut self)
        requires
            old(self).wf(),
        ensures
            final(self).wf(),
            old(self).mark_toggled(*final(self)),
    {
        proof {
            marks::law_toggle_flips_one_mark(self.bookmarks@, self.cursor);
        }
        let i: usize = table::lower_bound(self.bookmarks.as_slice(), self.cursor);
        if i < self.bookmarks.len() && self.bookmarks[i] == self.cursor {
            let _ = self.bookmarks.remove(i);
        } else {
            let at: u64 = self.cursor;
            self.bookmarks.insert(i, at);
        }
    }

    /// Jump to the next bookmark after the cursor, wrapping to the first when
    /// past the end. `false`, and no move, if there are no bookmarks or the
    /// next one is filtered out.
    pub fn jump_next_bookmark(&mut self) -> (r: bool)
        requires
            old(self).wf(),
        ensures
            final(self).wf(),
            r == old(self).can_jump_to_mark(),
            !r ==> *final(self) == *old(self),
            r ==> old(self).jumped_to(
                marks::next_mark(old(self).bookmarks@, old(self).cursor),
                *final(self),
            ),
    {
        if self.bookmarks.len() == 0 {
            return false;
        }
        let i: usize = table::lower_bound(self.bookmarks.as_slice(), self.cursor);
        let j: usize = if i < self.bookmarks.len() && self.bookmarks[i] == self.cursor {
            i + 1
        } else {
            i
        };
        let next: u64 = if j < self.bookmarks.len() {
            self.bookmarks[j]
        } else {
            self.bookmarks[0]
        };
        let at: usize = table::lower_bound(self.filtered_view.as_slice(), next);
        proof {
            table::lemma_bound(self.filtered_view@, next);
        }
        if at < self.filtered_view.len() && self.filtered_view[at] == next {
            assert(self.filtered_view@.contains(next));
            self.cursor = next;
            self.scroll_top = next;
            true
        } else {
            assert(!self.filtered_view@.contains(next)) by {
                if self.filtered_view@.contains(next) {
                    let k = choose|k: int|
                        0 <= k < self.filtered_view@.len() && self.filtered_view@[k] == next;
                    if k > at {
                        assert(self.filtered_view@[at as int] < self.filtered_view@[k]);
                    }
                }
            }
            false
        }
    }

    /// A view filtered to a severity set from the start. An empty set is no
    /// filter.
    pub fn new_with_severity(engine: &Engine, label: &str, levels: &[u8]) -> (r: Self)
        requires
            engine.wf(),
            forall|i: int| 0 <= i < levels@.len() ==> #[trigger] levels@[i] < 8,
        ensures
            r.wf(),
            r.within(*engine),
            r.title@ == label@,
            r.settings() == (Settings {
                filters: Filters {
                    regex: None,
                    fields: Seq::empty(),
                    levels: levels@,
                    min_mode: false,
                    range: None,
                    dsl: None,
                },
                label: label@,
            }),
            r.settings().filters.rules() == Ok::<Seq<Rule>, Seq<char>>(
                r.settings().filters.level_rules(),
            ),
            r.filtered_view@ == engine.hits(
                (Rule::All { parts: r.settings().filters.level_rules() }),
                engine.indexes.line.locs@.len() as int,
            ),
            r.cursor == (match table::snapped(r.filtered_view@, 0) {
                Some(c) => c,
                None => 0,
            }),
            r.scroll_top == r.cursor,
            !r.detail_open,
            r.status_msg@ == r.settings().summary(
                r.filtered_view@.len() as int,
                engine.indexes.line.locs@.len() as int,
            ),
            r.histogram_cache is None,
            r.generation == 1,
            r.scrub is None,
            r.bookmarks@.len() == 0,
    {
        let mut v: View = View::new_all(engine);
        v.title = label.to_owned();
        v.severity_label = label.to_owned();
        v.severity_levels = copy_levels(levels);
        let ghost before = v;
        proof {
            assert(before.filters() =~~= (Filters {
                regex: None,
                fields: Seq::empty(),
                levels: levels@,
                min_mode: false,
                range: None,
                dsl: None,
            }));
            assert(before.filters().rules() == Ok::<Seq<Rule>, Seq<char>>(
                before.filters().level_rules(),
            )) by {
                assert(Seq::<Rule>::empty() + filters::field_rules(Seq::empty())
                    + before.filters().level_rules() + before.filters().range_rules()
                    =~= before.filters().level_rules());
            }
        }
        v.rebuild_view(engine);
        v
    }

    /// Move the cursor by a number of rows, kept inside the view.
    pub fn move_cursor(&mut self, delta: i64)
        requires
            old(self).wf(),
        ensures
            final(self).wf(),
            old(self).moved_by(delta as int, *final(self)),
    {
        if self.filtered_view.len() == 0 {
            return;
        }
        let i: usize = table::lower_bound(self.filtered_view.as_slice(), self.cursor);
        let moved: i128 = i as i128 + delta as i128;
        let new_i: usize = if moved < 0 {
            0
        } else if moved >= self.filtered_view.len() as i128 {
            self.filtered_view.len() - 1
        } else {
            moved as usize
        };
        self.cursor = self.filtered_view[new_i];
        self.ensure_cursor_visible(20);
    }

    pub fn cursor_to_start(&mut self)
        ensures
            old(self).moved_to_start(*final(self)),
    {
        if self.filtered_view.len() > 0 {
            let first: u64 = self.filtered_view[0];
            self.cursor = first;
            self.scroll_top = first;
        }
    }

    pub fn cursor_to_end(&mut self)
        ensures
            old(self).moved_to_end(*final(self)),
    {
        let n: usize = self.filtered_view.len();
        if n > 0 {
            self.cursor = self.filtered_view[n - 1];
            let i: usize = if n < 20 {
                0
            } else {
                n - 20
            };
            self.scroll_top = self.filtered_view[i];
        }
    }

    /// Jump the cursor to the first record whose timestamp is at or after the
    /// target. `false` if the view has none.
    pub fn jump_to_time(&mut self, target_micros: i64, engine: &Engine) -> (r: bool)
        ensures
            r == (first_at_or_after(*engine, old(self).filtered_view@, target_micros, 0) is Some),
            old(self).jumped_to_time(*engine, target_micros, *final(self)),
    {
        if self.filtered_view.len() == 0 {
            return false;
        }
        let mut i: usize = 0;
        while i < self.filtered_view.len()
            invariant
                i <= self.filtered_view@.len(),
                *self == *old(self),
                first_at_or_after(*engine, self.filtered_view@, target_micros, 0)
                    == first_at_or_after(*engine, self.filtered_view@, target_micros, i as int),
            decreases self.filtered_view@.len() - i,
        {
            let id: u64 = self.filtered_view[i];
            let t: i64 = match engine.indexes.time.get(id) {
                Some(t) => t,
                None => TS_UNTIMED,
            };
            if t != TS_UNTIMED && t >= target_micros {
                self.cursor = id;
                self.scroll_top = id;
                return true;
            }
            i = i + 1;
        }
        self.status_msg = "no records at/after that time".to_owned();
        false
    }

    /// Scroll so that the cursor is inside the window.
    pub fn ensure_cursor_visible(&mut self, visible: u16)
        requires
            old(self).wf(),
            can_scroll(
                old(self).filtered_view@,
                old(self).scroll_top,
                old(self).cursor,
                visible as int,
            ),
        ensures
            *final(self) == (View {
                scroll_top: scrolled(
                    old(self).filtered_view@,
                    old(self).scroll_top,
                    old(self).cursor,
                    visible as int,
                ),
                ..*old(self)
            }),
    {
        if self.filtered_view.len() == 0 {
            return;
        }
        let top_i: usize = table::lower_bound(self.filtered_view.as_slice(), self.scroll_top);
        let cur_i: usize = table::lower_bound(self.filtered_view.as_slice(), self.cursor);
        let window: usize = if visible < 1 {
            1
        } else {
            visible as usize
        };
        if cur_i < top_i {
            self.scroll_top = self.cursor;
        } else if cur_i - top_i >= window {
            let new_top: usize = cur_i - (window - 1);
            self.scroll_top = self.filtered_view[new_top];
        }
    }

    /// Apply the filters anew.
    pub fn rebuild_view(&mut self, engine: &Engine)
        requires
            old(self).wf(),
            engine.wf(),
        ensures
            final(self).wf(),
            old(self).rebuilt(*engine, old(self).settings(), *final(self)),
            old(self).within(*engine) ==> final(self).within(*engine),
    {
        let total: usize = engine.indexes.len();
        let ghost settings = self.settings();
        let has_filter: bool = self.regex_filter.is_some() || self.field_filters.len() > 0
            || self.severity_levels.len() > 0 || self.time_range.is_some()
            || self.dsl_query.is_some();
        if !has_filter {
            proof {
                assert(settings.filters.none());
                assert(Seq::<Rule>::empty() + filters::field_rules(settings.filters.fields)
                    + settings.filters.level_rules() + settings.filters.range_rules()
                    =~= Seq::empty());
                filters::lemma_no_rule_hits_all(*engine, total as int);
            }
            self.filtered_view = list_all(total);
            let mut s: String = number::decimal_text(total as u64);
            s.append(" records (no filter)");
            self.status_msg = s;
        } else {
            let and: AndPredicate = match self.predicate() {
                Ok(p) => p,
                Err(message) => {
                    self.status_msg = message;
                    return;
                },
            };
            let hits: Vec<u64> = query::scan(engine, &and);
            proof {
                query::law_scan_is_exact(*engine, and.rule(), total as int);
            }
            self.status_msg = self.summary_text(hits.len(), total);
            self.filtered_view = hits;
        }
        if let Some(snapped) = table::snap_cursor(self.filtered_view.as_slice(), self.cursor) {
            self.cursor = snapped;
            self.scroll_top = snapped;
        }
        self.histogram_cache = None;
        self.generation = self.generation.wrapping_add(1);
    }

    /// The predicate of all filters, or what is wrong with one.
    fn predicate(&self) -> (r: Result<AndPredicate, String>)
        requires
            self.wf(),
        ensures
            match r {
                Ok(p) => self.filters().rules() matches Ok(rules) && p.rule() == (Rule::All {
                    parts: rules,
                }),
                Err(e) => self.filters().rules() == Err::<Seq<Rule>, Seq<char>>(e@),
            },
    {
        let ghost f = self.filters();
        let mut and: AndPredicate = AndPredicate::new();
        let ghost mut rules: Seq<Rule> = Seq::empty();
        assert(predicate::rules_of(and.parts@) =~= rules);
        if let Some(re) = &self.regex_filter {
            match RegexBytesPredicate::new(re.as_str()) {
                Ok(p) => {
                    push_rule(&mut and, AnyPredicate::Regex(p));
                    proof {
                        rules = rules.push(p.rule());
                    }
                },
                Err(e) => {
                    return Err("regex error: ".to_owned().concat(e.as_str()));
                },
            }
        }
        let ghost first = match f.regex {
            Some(re) => seq![Rule::LineMatches { pattern: re }],
            None => Seq::empty(),
        };
        assert(rules =~= first);
        let ghost fields = filters::field_rules(f.fields);
        let mut i: usize = 0;
        assert(first + fields.take(0) =~= first);
        while i < self.field_filters.len()
            invariant
                i <= self.field_filters@.len(),
                f == self.filters(),
                fields == filters::field_rules(f.fields),
                predicate::rules_of(and.parts@) == first + fields.take(i as int),
            decreases self.field_filters@.len() - i,
        {
            let (k, v) = &self.field_filters[i];
            let p: FieldEqualsPredicate = FieldEqualsPredicate::new(k.clone(), v.clone());
            push_rule(&mut and, AnyPredicate::FieldEquals(p));
            proof {
                assert(p.rule() == fields[i as int]);
                assert((first + fields.take(i as int)).push(p.rule()) =~= first + fields.take(
                    i + 1,
                ));
            }
            i = i + 1;
        }
        assert(fields.take(fields.len() as int) =~= fields);
        let ghost levels = f.level_rules();
        if self.severity_levels.len() > 0 {
            let effective: Vec<u8> = if self.severity_min_mode {
                proof {
                    filters::lemma_expanded_ranks(self.severity_levels@);
                }
                filters::expand_min(self.severity_levels.as_slice())
            } else {
                copy_levels(self.severity_levels.as_slice())
            };
            assert(effective@ =~= f.effective_levels());
            let p: SeverityInPredicate = SeverityInPredicate::new(effective.as_slice());
            push_rule(&mut and, AnyPredicate::SeverityIn(p));
            assert((first + fields).push(p.rule()) =~= first + fields + levels);
        }
        assert(first + fields + Seq::<Rule>::empty() =~= first + fields);
        assert(predicate::rules_of(and.parts@) == first + fields + levels);
        let ghost base = first + fields + levels;
        if let Some((lo, hi)) = self.time_range {
            let from: TimeRangePredicate = TimeRangePredicate::at_or_after(lo);
            let upto: TimeRangePredicate = TimeRangePredicate::at_or_before(hi);
            push_rule(&mut and, AnyPredicate::Time(from));
            push_rule(&mut and, AnyPredicate::Time(upto));
            assert(base.push(from.rule()).push(upto.rule()) =~= base + f.range_rules());
        }
        assert(base + Seq::<Rule>::empty() =~= base);
        assert(predicate::rules_of(and.parts@) == base + f.range_rules());
        if let Some(q) = &self.dsl_query {
            match dsl::compile(q.as_str()) {
                Ok(p) => {
                    push_rule(&mut and, p);
                },
                Err(e) => {
                    return Err("dsl error: ".to_owned().concat(e.as_str()));
                },
            }
        }
        Ok(and)
    }

    /// The status text of the filtered view.
    fn summary_text(&self, hits: usize, total: usize) -> (r: String)
        requires
            !self.filters().none(),
        ensures
            r@ == self.settings().summary(hits as int, total as int),
    {
        let ghost s = self.settings();
        let mut parts: Vec<String> = Vec::new();
        let ghost mut seen: Seq<Seq<char>> = Seq::empty();
        assert(text::texts(parts@) =~= seen);
        if self.severity_label.as_str().unicode_len() > 0 {
            let part: String = if self.severity_min_mode {
                self.severity_label.clone().concat("+")
            } else {
                self.severity_label.clone()
            };
            push_text(&mut parts, part);
        }
        let ghost label = text::texts(parts@);
        if let Some(re) = &self.regex_filter {
            let part: String = "/".to_owned().concat(re.as_str()).concat("/");
            push_text(&mut parts, part);
        }
        let ghost head = text::texts(parts@);
        let ghost fields = field_parts(s.filters.fields);
        let mut i: usize = 0;
        assert(head + fields.take(0) =~= head);
        while i < self.field_filters.len()
            invariant
                i <= self.field_filters@.len(),
                s == self.settings(),
                fields == field_parts(s.filters.fields),
                text::texts(parts@) == head + fields.take(i as int),
            decreases self.field_filters@.len() - i,
        {
            let (k, v) = &self.field_filters[i];
            let part: String = k.clone().concat("=").concat(v.as_str());
            assert(part@ =~= fields[i as int]);
            push_text(&mut parts, part);
            assert((head + fields.take(i as int)).push(fields[i as int]) =~= head + fields.take(
                i + 1,
            ));
            i = i + 1;
        }
        assert(fields.take(fields.len() as int) =~= fields);
        if let Some((lo, hi)) = self.time_range {
            let part: String = timeline::format_micros_short(lo).concat(" .. ").concat(
                timeline::format_micros_short(hi).as_str(),
            );
            push_text(&mut parts, part);
        }
        if let Some(q) = &self.dsl_query {
            push_text(&mut parts, ":".to_owned().concat(q.as_str()));
        }
        assert(text::texts(parts@) =~= s.parts());
        let mut out: String = filters::join_and(&parts);
        out.append("  ");
        out.append(number::decimal_text(hits as u64).as_str());
        out.append(" matches of ");
        out.append(number::decimal_text(total as u64).as_str());
        out
    }

    /// Show only some severities.
    pub fn set_severity(&mut self, label: &str, levels: &[u8], engine: &Engine)
        requires
            old(self).wf(),
            engine.wf(),
            forall|i: int| 0 <= i < levels@.len() ==> #[trigger] levels@[i] < 8,
        ensures
            final(self).wf(),
            old(self).severity_set(*engine, label@, levels@, *final(self)),
            old(self).within(*engine) ==> final(self).within(*engine),
    {
        self.severity_label = label.to_owned();
        self.severity_levels = copy_levels(levels);
        assert(self.settings() =~~= (Settings {
            filters: Filters { levels: levels@, ..old(self).filters() },
            label: label@,
        }));
        self.rebuild_view(engine);
    }

    /// Show every severity.
    pub fn clear_severity(&mut self, engine: &Engine)
        requires
            old(self).wf(),
            engine.wf(),
        ensures
            final(self).wf(),
            old(self).severity_set(*engine, Seq::empty(), Seq::empty(), *final(self)),
            old(self).within(*engine) ==> final(self).within(*engine),
    {
        self.severity_label = String::new();
        self.severity_levels = Vec::new();
        assert(self.settings() =~~= (Settings {
            filters: Filters { levels: Seq::empty(), ..old(self).filters() },
            label: Seq::empty(),
        }));
        self.rebuild_view(engine);
    }

    /// Switch between the chosen severities alone and "this and above".
    pub fn toggle_severity_mode(&mut self, engine: &Engine)
        requires
            old(self).wf(),
            engine.wf(),
        ensures
            final(self).wf(),
            old(self).mode_toggled(*engine, *final(self)),
            old(self).within(*engine) ==> final(self).within(*engine),
    {
        self.severity_min_mode = !self.severity_min_mode;
        self.rebuild_view(engine);
    }

    /// Filter by a regex over the raw line. An empty one clears the filter.
    pub fn set_regex(&mut self, pattern: &str, engine: &Engine)
        requires
            old(self).wf(),
            engine.wf(),
        ensures
            final(self).wf(),
            old(self).regex_set(*engine, pattern@, *final(self)),
            old(self).within(*engine) ==> final(self).within(*engine),
    {
        self.regex_filter = if pattern.unicode_len() == 0 {
            None
        } else {
            Some(pattern.to_owned())
        };
        self.rebuild_view(engine);
    }

    /// Filter by the value of a field, written `field=value`. A text of another
    /// shape changes nothing but the status text.
    pub fn add_field_filter(&mut self, raw: &str, engine: &Engine)
        requires
            old(self).wf(),
            engine.wf(),
        ensures
            final(self).wf(),
            old(self).field_filter_added(*engine, raw@, *final(self)),
            old(self).within(*engine) ==> final(self).within(*engine),
    {
        let n: usize = raw.unicode_len();
        let at: usize = find_char(raw, '=', n);
        if at >= n {
            self.status_msg =
            "filter must be 'field=value', got '".to_owned().concat(raw).concat("'");
            return;
        }
        let field: &str = raw.substring_char(0, at).trim();
        let value: &str = raw.substring_char(at + 1, n).trim();
        if field.unicode_len() == 0 {
            self.status_msg = "filter field is empty".to_owned();
            return;
        }
        self.field_filters.push((field.to_owned(), value.to_owned()));
        assert(self.settings() =~~= (Settings {
            filters: Filters {
                fields: old(self).filters().fields.push((field@, value@)),
                ..old(self).filters()
            },
            ..old(self).settings()
        }));
        self.rebuild_view(engine);
    }

    /// Validate and store a query. A syntax error shows in the status bar
    /// before any scan; an empty query clears the filter.
    pub fn set_dsl(&mut self, source: &str, engine: &Engine)
        requires
            old(self).wf(),
            engine.wf(),
        ensures
            final(self).wf(),
            old(self).query_set(*engine, source@, *final(self)),
            old(self).within(*engine) ==> final(self).within(*engine),
    {
        let trimmed: &str = source.trim();
        if trimmed.unicode_len() == 0 {
            self.dsl_query = None;
            self.rebuild_view(engine);
            return;
        }
        match dsl::compile(trimmed) {
            Ok(_) => {
                self.dsl_query = Some(trimmed.to_owned());
                self.rebuild_view(engine);
            },
            Err(e) => {
                self.status_msg = "dsl error: ".to_owned().concat(e.as_str());
            },
        }
    }

    /// Show only a stretch of time.
    fn set_range(&mut self, range: (i64, i64), engine: &Engine)
        requires
            old(self).wf(),
            engine.wf(),
        ensures
            final(self).wf(),
            old(self).range_set(*engine, range, *final(self)),
            old(self).within(*engine) ==> final(self).within(*engine),
    {
        self.time_range = Some(range);
        self.rebuild_view(engine);
    }

    /// Put a cursor on the timeline, where there is one and none is on it.
    /// `true` if there is one now.
    fn open_scrub(&mut self) -> (r: bool)
        requires
            old(self).wf(),
        ensures
            final(self).wf(),
            *final(self) == (View { scrub: old(self).scrub_opened(), ..*old(self) }),
            r == (old(self).scrub_opened() is Some),
    {
        if self.scrub.is_none() {
            let opened: Option<Scrub> = match &self.histogram_cache {
                Some((_, _, h)) => {
                    let bars: usize = h.bins.len();
                    if 0 < bars && bars <= u16::MAX as usize && h.t_min <= h.t_max && h.t_max
                        < i64::MAX {
                        Some(Scrub::open(bars, h.t_min, h.t_max))
                    } else {
                        None
                    }
                },
                None => None,
            };
            self.scrub = opened;
        }
        self.scrub.is_some()
    }

    /// Move the cursor on the timeline by some bars. The first call only puts
    /// it there.
    pub fn move_scrub(&mut self, by: i8)
        requires
            old(self).wf(),
        ensures
            final(self).wf(),
            old(self).scrubbed(by as int, *final(self)),
    {
        match self.scrub {
            Some(s) => {
                self.scrub = Some(s.step(by));
            },
            None => {
                let _ = self.open_scrub();
            },
        }
    }

    /// Zoom the timeline in, around its cursor.
    pub fn zoom_in(&mut self)
        requires
            old(self).wf(),
        ensures
            final(self).wf(),
            old(self).zoomed_in(*final(self)),
    {
        if self.open_scrub() {
            if let Some(s) = self.scrub {
                self.scrub = Some(s.zoom_in());
                self.histogram_cache = None;
            }
        }
    }

    /// Zoom the timeline out, around its cursor.
    pub fn zoom_out(&mut self, engine: &Engine)
        requires
            old(self).wf(),
        ensures
            final(self).wf(),
            old(self).zoomed_out(*engine, *final(self)),
    {
        if self.open_scrub() {
            let (extent, _) = histogram::survey(engine, self.filtered_view.as_slice());
            if let (Some(s), Some((first, last))) = (self.scrub, extent) {
                if last < i64::MAX {
                    self.scrub = Some(s.zoom_out(first, last));
                    self.histogram_cache = None;
                }
            }
        }
    }

    /// Show only what the cursor on the timeline selects, and take the cursor
    /// off. `false`, and no change, where there is none.
    pub fn apply_scrub(&mut self, engine: &Engine) -> (r: bool)
        requires
            old(self).wf(),
            engine.wf(),
        ensures
            final(self).wf(),
            r == (old(self).scrub is Some),
            old(self).scrub_applied(*engine, *final(self)),
            old(self).within(*engine) ==> final(self).within(*engine),
    {
        match self.scrub {
            Some(s) => {
                self.drop_scrub();
                self.set_range(s.selected(), engine);
                true
            },
            None => false,
        }
    }

    fn drop_scrub(&mut self)
        requires
            old(self).wf(),
        ensures
            final(self).wf(),
            *final(self) == old(self).scrub_dropped(),
    {
        if let Some(s) = self.scrub {
            if s.zoomed {
                self.histogram_cache = None;
            }
            self.scrub = None;
        }
    }

    /// Take the cursor off the timeline; where there is none, clear every
    /// filter.
    pub fn cancel(&mut self, engine: &Engine)
        requires
            old(self).wf(),
            engine.wf(),
        ensures
            final(self).wf(),
            old(self).cancelled(*engine, *final(self)),
            old(self).within(*engine) ==> final(self).within(*engine),
    {
        if self.scrub.is_some() {
            self.drop_scrub();
        } else {
            self.clear_filters(engine);
        }
    }

    /// The histogram for the timeline pane, built when the cache does not hold
    /// it. A cache that was true stays true. The cursor on the timeline comes
    /// to stand on what is drawn.
    pub fn histogram(&mut self, engine: &Engine, bars: u16) -> (r: &Histogram)
        requires
            engine.wf(),
            old(self).wf(),
            old(self).cache_is_true(*engine),
        ensures
            old(self).is_shown(*engine, bars as int, *r),
            final(self).wf(),
            final(self).cache_is_true(*engine),
            final(self).histogram_cache matches Some((g, w, h)) && g == old(self).generation && w
                == bars && h == *r,
            *final(self) == (View {
                histogram_cache: final(self).histogram_cache,
                scrub: Scrub::redrawn(old(self).scrub, r.bins@.len() as int, r.t_min, r.t_max),
                ..*old(self)
            }),
    {
        let fresh: bool = match &self.histogram_cache {
            Some((g, w, _)) => *g == self.generation && *w == bars,
            None => false,
        };
        if !fresh {
            let zoomed: Option<(i64, i64)> = match self.scrub {
                Some(s) => if s.zoomed {
                    Some((s.lo, s.hi))
                } else {
                    None
                },
                None => None,
            };
            let h: Histogram = match zoomed {
                Some((lo, hi)) => Histogram::build_over_range(
                    engine,
                    self.filtered_view.as_slice(),
                    lo,
                    hi,
                    bars as usize,
                ),
                None => Histogram::build_over(
                    engine,
                    self.filtered_view.as_slice(),
                    bars as usize,
                ),
            };
            self.histogram_cache = Some((self.generation, bars, h));
        }
        let scrub: Option<Scrub> = match &self.histogram_cache {
            Some((_, _, h)) => {
                proof {
                    histogram::lemma_axis(*engine, self.filtered_view@);
                }
                Scrub::fit(self.scrub, h)
            },
            None => None,
        };
        self.scrub = scrub;
        match &self.histogram_cache {
            Some((_, _, h)) => h,
            None => unreached(),
        }
    }

    /// Clear every filter.
    pub fn clear_filters(&mut self, engine: &Engine)
        requires
            old(self).wf(),
            engine.wf(),
        ensures
            final(self).wf(),
            old(self).filters_cleared(*engine, *final(self)),
            old(self).within(*engine) ==> final(self).within(*engine),
    {
        self.regex_filter = None;
        self.field_filters = Vec::new();
        self.severity_levels = Vec::new();
        self.severity_label = String::new();
        self.time_range = None;
        self.dsl_query = None;
        assert(self.settings() =~~= (Settings {
            filters: Filters {
                regex: None,
                fields: Seq::empty(),
                levels: Seq::empty(),
                range: None,
                dsl: None,
                ..old(self).filters()
            },
            label: Seq::empty(),
        }));
        self.rebuild_view(engine);
    }
}

/// Clearing the filters brings every record back.
pub proof fn law_cleared_view_shows_all(before: View, engine: Engine, after: View)
    requires
        before.filters_cleared(engine, after),
        engine.indexes.line.locs@.len() <= u64::MAX,
    ensures
        after.filtered_view@ == filters::all_ids(engine.indexes.line.locs@.len() as int),
        after.filters().none(),
{
    let f = after.filters();
    assert(Seq::<Rule>::empty() + filters::field_rules(f.fields) + f.level_rules()
        + f.range_rules() =~= Seq::empty());
    filters::lemma_no_rule_hits_all(engine, engine.indexes.line.locs@.len() as int);
}

/// A view that was filtered anew holds no histogram of what it showed before,
/// and goes by another generation.
pub proof fn law_new_filters_drop_the_histogram(
    before: View,
    engine: Engine,
    settings: Settings,
    after: View,
)
    requires
        before.rebuilt(engine, settings, after),
        settings.filters.rules() is Ok,
    ensures
        after.histogram_cache is None,
        after.generation != before.generation,
        after.cache_is_true(engine),
{
}

/// A view lists exactly the records that all its filters let through, in
/// ascending order.
pub proof fn law_view_lists_what_filters_let_through(
    before: View,
    engine: Engine,
    settings: Settings,
    after: View,
    id: int,
)
    requires
        before.rebuilt(engine, settings, after),
        settings.filters.rules() is Ok,
        0 <= id < engine.indexes.line.locs@.len() <= u64::MAX,
    ensures
        after.filtered_view@.contains(id as u64) <==> forall|i: int|
            0 <= i < settings.filters.rules()->Ok_0.len() ==> engine.accepts(
                #[trigger] settings.filters.rules()->Ok_0[i],
                id,
            ),
{
    query::law_conjunction_hits(
        engine,
        settings.filters.rules()->Ok_0,
        engine.indexes.line.locs@.len() as int,
        id,
    );
}

/// Switching min-mode twice brings the settings back.
pub proof fn law_mode_switched_twice(before: View, engine: Engine, mid: View, after: View)
    requires
        before.mode_toggled(engine, mid),
        mid.mode_toggled(engine, after),
    ensures
        after.settings() =~~= before.settings(),
{
}

/// Applying the cursor on the timeline leaves only records of the stretch of
/// time that it selected, and takes the cursor off.
pub proof fn law_applied_scrub_shows_its_stretch(before: View, engine: Engine, after: View, id: int)
    requires
        before.scrub is Some,
        before.scrub_applied(engine, after),
        before.filters().rules() is Ok,
        0 <= id < engine.indexes.line.locs@.len() <= u64::MAX,
        after.filtered_view@.contains(id as u64),
    ensures
        engine.indexes.time.ts@[id] != TS_UNTIMED,
        before.scrub->0.selection().0 <= engine.indexes.time.ts@[id]
            <= before.scrub->0.selection().1,
        after.scrub is None,
{
    let dropped = before.scrub_dropped();
    let sel = before.scrub->0.selection();
    let f = Filters { range: Some(sel), ..before.filters() };
    let settings = Settings { filters: f, ..before.settings() };
    assert(dropped.settings() == before.settings());
    let k = filters::lemma_range_stands_in_rules(before.filters(), sel);
    law_view_lists_what_filters_let_through(dropped, engine, settings, after, id);
    let rules = f.rules()->Ok_0;
    assert(engine.accepts(rules[k], id));
    assert(engine.accepts(rules[k + 1], id));
}

/// With a cursor on the timeline, cancelling takes it off and leaves the
/// filters alone; cancelling once more clears them.
pub proof fn law_cancel_twice_clears(before: View, engine: Engine, mid: View, after: View)
    requires
        before.scrub is Some,
        before.cancelled(engine, mid),
        mid.cancelled(engine, after),
    ensures
        mid.settings() == before.settings(),
        mid.filtered_view == before.filtered_view,
        mid.scrub is None,
        after.filters().none(),
{
}

/// Where a character first stands in a text, from index `i` on; the text's
/// length when it does not.
pub open spec fn char_index(s: Seq<char>, c: char, i: int) -> int
    decreases s.len() - i,
{
    if !(0 <= i < s.len()) || s[i] == c {
        i
    } else {
        char_index(s, c, i + 1)
    }
}

/// The field and the value in `field=value`, or what is wrong with the text.
pub open spec fn field_value(raw: Seq<char>) -> Result<(Seq<char>, Seq<char>), Seq<char>> {
    let at = char_index(raw, '=', 0);
    let field = text::trimmed(raw.subrange(0, at));
    if at >= raw.len() {
        Err("filter must be 'field=value', got '"@ + raw + "'"@)
    } else if field.len() == 0 {
        Err("filter field is empty"@)
    } else {
        Ok((field, text::trimmed(raw.subrange(at + 1, raw.len() as int))))
    }
}

fn find_char(s: &str, c: char, n: usize) -> (r: usize)
    requires
        n == s@.len(),
    ensures
        r == char_index(s@, c, 0),
        r <= n,
{
    let mut i: usize = 0;
    while i < n && s.get_char(i) != c
        invariant
            i <= n == s@.len(),
            char_index(s@, c, 0) == char_index(s@, c, i as int),
        decreases n - i,
    {
        i = i + 1;
    }
    i
}

/// All ids below `n`.
fn list_all(n: usize) -> (r: Vec<u64>)
    ensures
        r@ == filters::all_ids(n as int),
        table::ascending(r@),
{
    let mut out: Vec<u64> = Vec::new();
    let mut i: usize = 0;
    while i < n
        invariant
            i <= n,
            out@ == filters::all_ids(i as int),
        decreases n - i,
    {
        out.push(i as u64);
        i = i + 1;
        assert(out@ =~= filters::all_ids(i as int));
    }
    out
}

fn copy_levels(levels: &[u8]) -> (r: Vec<u8>)
    ensures
        r@ == levels@,
{
    crate::scan::copied(levels)
}

fn push_rule(and: &mut AndPredicate, p: AnyPredicate)
    ensures
        predicate::rules_of(final(and).parts@) == predicate::rules_of(old(and).parts@).push(
            predicate::rule_of(p),
        ),
{
    let ghost before = predicate::rules_of(and.parts@);
    and.push(p);
    assert(predicate::rules_of(and.parts@) =~= before.push(predicate::rule_of(p)));
}

fn push_text(parts: &mut Vec<String>, part: String)
    ensures
        text::texts(final(parts)@) == text::texts(old(parts)@).push(part@),
{
    let ghost before = text::texts(parts@);
    parts.push(part);
    assert(text::texts(parts@) =~= before.push(part@));
}

/// The status text counts the records that are shown, and of a filtered view
/// all records as well.
pub proof fn law_status_counts_the_records(s: Settings, hits: int, total: int)
    ensures
        s.filters.none() ==> s.summary(hits, total) == number::digits(hits)
            + " records (no filter)"@,
        !s.filters.none() ==> s.summary(hits, total) == filters::and_joined(s.parts()) + "  "@
            + number::digits(hits) + " matches of "@ + number::digits(total),
        opening_text(0, 0) == "no records loaded"@,
        total > 0 ==> opening_text(total, 0) == number::digits(total) + " records"@,
{
}

/// The end of a view is its last record, with a page of twenty rows above it,
/// or all of them where there are fewer. The start is its first record.
pub proof fn law_ends_of_the_view(before: View, after: View)
    requires
        before.filtered_view@.len() > 0,
    ensures
        before.moved_to_end(after) ==> {
            let view = before.filtered_view@;
            &&& after.cursor == view.last()
            &&& view.len() >= 20 ==> after.scroll_top == view[view.len() - 20]
            &&& view.len() < 20 ==> after.scroll_top == view[0]
            &&& after.filtered_view == before.filtered_view
        },
        before.moved_to_start(after) ==> after.cursor == before.filtered_view@[0]
            && after.filtered_view == before.filtered_view,
{
}

} // verus!
