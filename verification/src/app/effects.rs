//! What the keys and prompts come to, from the event to what is listed and where
//! the cursor stands.

use vstd::prelude::*;
use vstd::string::*;

use crate::app::filters;
use crate::app::filters::Filters;
use crate::app::input;
use crate::app::input::{Command, Effect, Event, KeyCode, KeyPress, Mode};
use crate::app::view;
use crate::app::view::{Settings, View as TabView};
use crate::app::App;
use crate::engine::dsl;
use crate::engine::histogram;
use crate::engine::predicate::{Rule, TimeRelation};
use crate::engine::query;
use crate::engine::record::{severity, TS_UNTIMED};
use crate::engine::Engine;
use crate::panes::table;
use crate::pattern;
use crate::text;

verus! {

/// Every one of some rules accepts a record.
pub open spec fn all_accept(engine: Engine, rules: Seq<Rule>, id: int) -> bool {
    forall|i: int| 0 <= i < rules.len() ==> engine.accepts(#[trigger] rules[i], id)
}

proof fn lemma_accept_both(engine: Engine, a: Seq<Rule>, b: Seq<Rule>, id: int)
    ensures
        all_accept(engine, a + b, id) <==> all_accept(engine, a, id) && all_accept(engine, b, id),
{
    let ab = a + b;
    if all_accept(engine, ab, id) {
        assert forall|i: int| 0 <= i < a.len() implies engine.accepts(#[trigger] a[i], id) by {
            assert(ab[i] == a[i]);
        }
        assert forall|i: int| 0 <= i < b.len() implies engine.accepts(#[trigger] b[i], id) by {
            assert(ab[a.len() + i] == b[i]);
        }
    }
    if all_accept(engine, a, id) && all_accept(engine, b, id) {
        assert forall|i: int| 0 <= i < ab.len() implies engine.accepts(#[trigger] ab[i], id) by {
            if i < a.len() {
                assert(ab[i] == a[i]);
            } else {
                assert(ab[i] == b[i - a.len()]);
            }
        }
    }
}

proof fn lemma_accept_one(engine: Engine, r: Rule, id: int)
    ensures
        all_accept(engine, seq![r], id) <==> engine.accepts(r, id),
        all_accept(engine, Seq::empty(), id),
{
    assert(seq![r][0] == r);
}

/// A severity is among those that filters let through.
pub open spec fn lets_severity(f: Filters, sev: u8) -> bool {
    f.levels.len() == 0 || f.levels.contains(sev) || (f.min_mode && sev <= severity::FATAL
        && exists|c: u8| #[trigger] f.levels.contains(c) && c <= sev)
}

proof fn lemma_levels(engine: Engine, f: Filters, id: int)
    ensures
        all_accept(engine, f.level_rules(), id) <==> lets_severity(
            f,
            engine.indexes.severity.levels@[id],
        ),
{
    let sev = engine.indexes.severity.levels@[id];
    if f.levels.len() > 0 {
        let r = Rule::SeverityIn { levels: f.effective_levels().to_set() };
        lemma_accept_one(engine, r, id);
        assert(engine.accepts(r, id) == f.effective_levels().to_set().contains(sev));
        assert(f.effective_levels().to_set().contains(sev) == f.effective_levels().contains(sev));
        if f.min_mode {
            filters::law_min_mode_is_this_and_above(f.levels, sev);
        }
    }
}

proof fn lemma_range(engine: Engine, f: Filters, id: int)
    ensures
        all_accept(engine, f.range_rules(), id) <==> (f.range matches Some((lo, hi)) ==> {
            let t = engine.indexes.time.ts@[id];
            t != TS_UNTIMED && lo <= t <= hi
        }),
{
    if let Some((lo, hi)) = f.range {
        let a = Rule::Time { relation: TimeRelation::GreaterEq, bound: lo };
        let b = Rule::Time { relation: TimeRelation::LessEq, bound: hi };
        assert(f.range_rules() =~= seq![a] + seq![b]);
        lemma_accept_both(engine, seq![a], seq![b], id);
        lemma_accept_one(engine, a, id);
        lemma_accept_one(engine, b, id);
    }
}

proof fn lemma_fields(engine: Engine, f: Filters, id: int)
    ensures
        all_accept(engine, filters::field_rules(f.fields), id) <==> forall|k: int|
            0 <= k < f.fields.len() ==> engine.dialect_at(
                engine.indexes.line.locs@[id].source_id,
            ).field(engine.bytes_of(id), (#[trigger] f.fields[k]).0) == Some(f.fields[k].1),
{
    let rules = filters::field_rules(f.fields);
    let d = engine.dialect_at(engine.indexes.line.locs@[id].source_id);
    let line = engine.bytes_of(id);
    assert forall|k: int| 0 <= k < rules.len() implies engine.accepts(#[trigger] rules[k], id) == (
    d.field(line, f.fields[k].0) == Some(f.fields[k].1)) by {}
    if all_accept(engine, rules, id) {
        assert forall|k: int| 0 <= k < f.fields.len() implies d.field(
            line,
            (#[trigger] f.fields[k]).0,
        ) == Some(f.fields[k].1) by {
            assert(engine.accepts(rules[k], id));
        }
    }
}

/// A view lists a record exactly when it meets every filter: the search pattern
/// matches its line, each chosen field has the chosen text, its severity is
/// chosen or, in min-mode, ranks above the lowest chosen one, its time lies in
/// the stretch, both ends included, and the query holds of it.
pub proof fn law_a_listed_record_meets_every_filter(
    before: TabView,
    engine: Engine,
    settings: Settings,
    after: TabView,
    id: int,
)
    requires
        before.rebuilt(engine, settings, after),
        settings.filters.rules() is Ok,
        0 <= id < engine.indexes.line.locs@.len() <= u64::MAX,
    ensures
        ({
            let f = settings.filters;
            let line = engine.bytes_of(id);
            let d = engine.dialect_at(engine.indexes.line.locs@[id].source_id);
            let t = engine.indexes.time.ts@[id];
            let sev = engine.indexes.severity.levels@[id];
            after.filtered_view@.contains(id as u64) <==> {
                &&& f.regex matches Some(re) ==> pattern::bytes_matches(re, line)
                &&& forall|k: int|
                    0 <= k < f.fields.len() ==> d.field(line, (#[trigger] f.fields[k]).0) == Some(
                        f.fields[k].1,
                    )
                &&& lets_severity(f, sev)
                &&& f.range matches Some((lo, hi)) ==> t != TS_UNTIMED && lo <= t <= hi
                &&& f.dsl matches Some(q) ==> (dsl::query(text::enc(q)) matches Ok(r) && r.holds(
                    t,
                    sev,
                    d,
                    line,
                ))
            }
        }),
{
    let f = settings.filters;
    view::law_view_lists_what_filters_let_through(before, engine, settings, after, id);
    let rules = f.rules()->Ok_0;
    let first = match f.regex {
        Some(re) => seq![Rule::LineMatches { pattern: re }],
        None => Seq::<Rule>::empty(),
    };
    let fr = filters::field_rules(f.fields);
    let base = first + fr + f.level_rules() + f.range_rules();
    lemma_accept_both(engine, first + fr + f.level_rules(), f.range_rules(), id);
    lemma_accept_both(engine, first + fr, f.level_rules(), id);
    lemma_accept_both(engine, first, fr, id);
    lemma_levels(engine, f, id);
    lemma_range(engine, f, id);
    lemma_fields(engine, f, id);
    if let Some(re) = f.regex {
        lemma_accept_one(engine, Rule::LineMatches { pattern: re }, id);
    }
    match f.dsl {
        None => {
            assert(rules == base);
        },
        Some(q) => {
            let r = dsl::query(text::enc(q))->Ok_0;
            assert(rules =~= base + seq![r]);
            lemma_accept_both(engine, base, seq![r], id);
            lemma_accept_one(engine, r, id);
        },
    }
    assert(all_accept(engine, rules, id) <==> after.filtered_view@.contains(id as u64));
}

proof fn lemma_first_found(engine: Engine, ids: Seq<u64>, target: i64, i: int, k: int)
    requires
        0 <= i <= k < ids.len(),
        histogram::time_at(engine, ids[k]) != TS_UNTIMED,
        histogram::time_at(engine, ids[k]) >= target,
        forall|j: int|
            i <= j < k ==> histogram::time_at(engine, #[trigger] ids[j]) == TS_UNTIMED
                || histogram::time_at(engine, ids[j]) < target,
    ensures
        view::first_at_or_after(engine, ids, target, i) == Some(ids[k]),
    decreases k - i,
{
    if i < k {
        assert(histogram::time_at(engine, ids[i]) == TS_UNTIMED || histogram::time_at(
            engine,
            ids[i],
        ) < target);
        lemma_first_found(engine, ids, target, i + 1, k);
    }
}

proof fn lemma_none_found(engine: Engine, ids: Seq<u64>, target: i64, i: int)
    requires
        0 <= i <= ids.len(),
        forall|j: int|
            i <= j < ids.len() ==> histogram::time_at(engine, #[trigger] ids[j]) == TS_UNTIMED
                || histogram::time_at(engine, ids[j]) < target,
    ensures
        view::first_at_or_after(engine, ids, target, i) is None,
    decreases ids.len() - i,
{
    if i < ids.len() {
        assert(histogram::time_at(engine, ids[i]) == TS_UNTIMED || histogram::time_at(
            engine,
            ids[i],
        ) < target);
        lemma_none_found(engine, ids, target, i + 1);
    }
}

/// A jump to a time puts the cursor on the first listed record that is timed
/// and not before it, and that record at the top; where there is none, the
/// cursor stays. What is listed does not change.
pub proof fn law_jump_lands_on_the_first_at_or_after(
    before: TabView,
    engine: Engine,
    target: i64,
    after: TabView,
    k: int,
)
    requires
        before.jumped_to_time(engine, target, after),
    ensures
        after.filtered_view == before.filtered_view,
        ({
            let ids = before.filtered_view@;
            let fits = |j: int|
                histogram::time_at(engine, ids[j]) != TS_UNTIMED && histogram::time_at(engine, ids[j])
                    >= target;
            &&& 0 <= k < ids.len() && fits(k) && (forall|j: int| 0 <= j < k ==> !#[trigger] fits(j))
                ==> after.cursor == ids[k] && after.scroll_top == ids[k]
            &&& (forall|j: int| 0 <= j < ids.len() ==> !#[trigger] fits(j)) ==> after.cursor
                == before.cursor && after.scroll_top == before.scroll_top
        }),
{
    let ids = before.filtered_view@;
    let fits = |j: int|
        histogram::time_at(engine, ids[j]) != TS_UNTIMED && histogram::time_at(engine, ids[j])
            >= target;
    if 0 <= k < ids.len() && fits(k) && (forall|j: int| 0 <= j < k ==> !#[trigger] fits(j)) {
        assert forall|j: int| 0 <= j < k implies histogram::time_at(engine, #[trigger] ids[j])
            == TS_UNTIMED || histogram::time_at(engine, ids[j]) < target by {
            assert(!fits(j));
        }
        lemma_first_found(engine, ids, target, 0, k);
    }
    if forall|j: int| 0 <= j < ids.len() ==> !#[trigger] fits(j) {
        assert forall|j: int| 0 <= j < ids.len() implies histogram::time_at(
            engine,
            #[trigger] ids[j],
        ) == TS_UNTIMED || histogram::time_at(engine, ids[j]) < target by {
            assert(!fits(j));
        }
        lemma_none_found(engine, ids, target, 0);
    }
}

/// The place of a listed record.
proof fn lemma_place(ids: Seq<u64>, i: int)
    requires
        table::ascending(ids),
        0 <= i < ids.len(),
    ensures
        table::bound(ids, ids[i]) == i,
{
    assert forall|k: int| 0 <= k < i implies #[trigger] ids[k] < ids[i] by {}
    assert forall|k: int| i <= k < ids.len() implies ids[i] <= #[trigger] ids[k] by {
        if k > i {
            assert(ids[i] < ids[k]);
        }
    }
    table::lemma_bound_is(ids, ids[i], i);
}

/// Scrolling brings a listed cursor into the window, and moves the window only
/// when it has to.
pub proof fn law_scrolling_keeps_the_cursor_in_sight(
    ids: Seq<u64>,
    top: u64,
    i: int,
    visible: int,
)
    requires
        table::ascending(ids),
        0 <= i < ids.len(),
    ensures
        ({
            let t = view::scrolled(ids, top, ids[i], visible);
            let window = if visible < 1 {
                1
            } else {
                visible
            };
            &&& table::bound(ids, t) <= i < table::bound(ids, t) + window
            &&& table::bound(ids, top) <= i < table::bound(ids, top) + window ==> t == top
        }),
{
    lemma_place(ids, i);
    table::lemma_bound(ids, top);
    let window = if visible < 1 {
        1
    } else {
        visible
    };
    let j = table::bound(ids, top);
    if i >= j + window {
        lemma_place(ids, i + 1 - window);
    }
}

/// Moving the cursor by some rows lands that many rows on, or at the end of the
/// list that lies that way; the first and the last row are where they are.
pub proof fn law_cursor_moves_by_rows(before: TabView, delta: int, after: TabView, i: int)
    requires
        before.wf(),
        0 <= i < before.filtered_view@.len(),
        before.cursor == before.filtered_view@[i],
    ensures
        ({
            let ids = before.filtered_view@;
            &&& before.moved_by(delta, after) ==> {
                &&& 0 <= i + delta < ids.len() ==> after.cursor == ids[i + delta]
                &&& i + delta < 0 ==> after.cursor == ids[0]
                &&& i + delta >= ids.len() ==> after.cursor == ids[ids.len() - 1]
            }
            &&& before.moved_to_start(after) ==> after.cursor == ids[0]
            &&& before.moved_to_end(after) ==> after.cursor == ids[ids.len() - 1]
            &&& before.moved_by(delta, after) || before.moved_to_start(after) || before.moved_to_end(
                after,
            ) ==> after.filtered_view == before.filtered_view && after.filters() == before.filters()
                && after.bookmarks == before.bookmarks
        }),
{
    lemma_place(before.filtered_view@, i);
}

/// Each prompt and key sets its own filter and leaves the others as they are.
pub proof fn law_each_filter_is_set_alone(
    before: TabView,
    engine: Engine,
    after: TabView,
    label: Seq<char>,
    levels: Seq<u8>,
    source: Seq<char>,
    range: (i64, i64),
)
    ensures
        before.severity_set(engine, label, levels, after) ==> after.filters() == (Filters {
            levels,
            ..before.filters()
        }) && after.severity_label@ == label,
        before.mode_toggled(engine, after) ==> after.filters() == (Filters {
            min_mode: !before.filters().min_mode,
            ..before.filters()
        }),
        before.regex_set(engine, source, after) ==> after.filters() == (Filters {
            regex: if source.len() == 0 {
                None
            } else {
                Some(source)
            },
            ..before.filters()
        }),
        before.range_set(engine, range, after) ==> after.filters() == (Filters {
            range: Some(range),
            ..before.filters()
        }),
        before.query_set(engine, source, after) && text::trimmed(source).len() == 0
            ==> after.filters() == (Filters { dsl: None, ..before.filters() }),
        before.query_set(engine, source, after) && text::trimmed(source).len() > 0 && dsl::query(
            text::enc(text::trimmed(source)),
        ) is Ok ==> after.filters() == (Filters {
            dsl: Some(text::trimmed(source)),
            ..before.filters()
        }),
        before.query_set(engine, source, after) && text::trimmed(source).len() > 0 && dsl::query(
            text::enc(text::trimmed(source)),
        ) is Err ==> after.filters() == before.filters() && after.filtered_view
            == before.filtered_view,
        before.filters_cleared(engine, after) ==> after.filters().none() && after.filters().min_mode
            == before.filters().min_mode,
{
}

proof fn lemma_first_equals(raw: Seq<char>, c: char, i: int, k: int)
    requires
        0 <= i <= k < raw.len(),
        raw[k] == c,
        forall|j: int| i <= j < k ==> #[trigger] raw[j] != c,
    ensures
        view::char_index(raw, c, i) == k,
    decreases k - i,
{
    if i < k {
        assert(raw[i] != c);
        lemma_first_equals(raw, c, i + 1, k);
    }
}

/// `field=value` asks for the text behind the first `=` in the field before it,
/// white space around both aside.
pub proof fn law_field_filter_splits_at_the_first_equals(field: Seq<char>, value: Seq<char>)
    requires
        forall|j: int| 0 <= j < field.len() ==> #[trigger] field[j] != '=',
        text::trimmed(field).len() > 0,
    ensures
        view::field_value(field + seq!['='] + value) == Ok::<(Seq<char>, Seq<char>), Seq<char>>(
            (text::trimmed(field), text::trimmed(value)),
        ),
{
    let raw = field + seq!['='] + value;
    let k = field.len() as int;
    assert forall|j: int| 0 <= j < k implies #[trigger] raw[j] != '=' by {
        assert(raw[j] == field[j]);
    }
    lemma_first_equals(raw, '=', 0, k);
    assert(raw.subrange(0, k) =~= field);
    assert(raw.subrange(k + 1, raw.len() as int) =~= value);
}

/// The number keys choose severities: 1 errors and fatal errors, 2 warnings, 3
/// info, 4 debug and trace, and 0 every severity.
pub proof fn law_number_keys_choose_severities(before: App, c: char, wheel: i64, after: App, wheel_after: i64, effect: Effect)
    requires
        before.input is None,
        before.handled(
            Event::Key(KeyPress { code: KeyCode::Char(c), control_only: false, shift: false }),
            wheel,
            after,
            wheel_after,
            effect,
        ),
    ensures
        ({
            let levels = after.current().filters().levels;
            &&& c == '1' ==> levels == seq![severity::ERROR, severity::FATAL]
            &&& c == '2' ==> levels == seq![severity::WARN]
            &&& c == '3' ==> levels == seq![severity::INFO]
            &&& c == '4' ==> levels == seq![severity::DEBUG, severity::TRACE]
            &&& c == '0' ==> levels.len() == 0
        }),
{
}

/// Each plain key does what it is listed for, and nothing to what is listed
/// unless it filters.
pub proof fn law_plain_keys(before: App, c: char, wheel: i64, after: App, wheel_after: i64, effect: Effect)
    requires
        before.input is None,
        before.active_tab < before.views@.len(),
        before.handled(
            Event::Key(KeyPress { code: KeyCode::Char(c), control_only: false, shift: false }),
            wheel,
            after,
            wheel_after,
            effect,
        ),
    ensures
        effect is Quit <==> c == 'q',
        c == 'g' ==> before.current().moved_to_start(after.current()),
        c == 'G' ==> before.current().moved_to_end(after.current()),
        c == 'b' ==> before.current().mark_toggled(after.current()),
        c == 'd' ==> after.current().detail_open == !before.current().detail_open,
        c == '?' ==> after.stats_open == !before.stats_open,
        c == 'm' ==> before.current().mode_toggled(before.engine, after.current()),
        c == '+' ==> before.current().zoomed_in(after.current()),
        c == '-' ==> before.current().zoomed_out(before.engine, after.current()),
        c == '>' ==> before.current().scrubbed(1, after.current()),
        c == '<' ==> before.current().scrubbed(-1, after.current()),
        c == 'R' ==> before.rescanned(after),
        c == '/' ==> input::opt_input(after.input) == Some(
            input::InputView { mode: Mode::Search, text: Seq::empty() },
        ),
        c == ':' || c == ';' ==> input::opt_input(after.input) == Some(
            input::InputView { mode: Mode::Dsl, text: Seq::empty() },
        ),
        c == 'f' ==> input::opt_input(after.input) == Some(
            input::InputView { mode: Mode::Filter, text: Seq::empty() },
        ),
        c == 's' ==> input::opt_input(after.input) == Some(
            input::InputView { mode: Mode::Save, text: Seq::empty() },
        ),
        c == 't' && before.engine.mostly_timed() ==> input::opt_input(after.input) == Some(
            input::InputView { mode: Mode::JumpTime, text: Seq::empty() },
        ),
        c == 't' && !before.engine.mostly_timed() ==> after == before,
{
}

/// Arrow and page keys gather rows to scroll, up as less and down as more;
/// `Tab` goes to the next tab, with shift to the one before; control with `t`
/// and `w` opens and closes tabs, and control with `c` quits.
pub proof fn law_other_keys(before: App, k: KeyPress, wheel: i64, after: App, wheel_after: i64, effect: Effect)
    requires
        before.input is None,
        before.active_tab < before.views@.len() < usize::MAX,
        -1_000 < wheel < 1_000,
        before.handled(Event::Key(k), wheel, after, wheel_after, effect),
    ensures
        k.code == KeyCode::Up ==> wheel_after == wheel - 1 && after == before,
        k.code == KeyCode::Down ==> wheel_after == wheel + 1 && after == before,
        k.code == KeyCode::PageUp ==> wheel_after == wheel - 20 && after == before,
        k.code == KeyCode::PageDown ==> wheel_after == wheel + 20 && after == before,
        k.code == KeyCode::Tab && !k.shift && before.active_tab + 1 < before.views@.len()
            ==> after.active_tab == before.active_tab + 1,
        k.code == KeyCode::Tab && !k.shift && before.active_tab + 1 == before.views@.len()
            ==> after.active_tab == 0,
        (k.code == KeyCode::BackTab || (k.code == KeyCode::Tab && k.shift)) && before.active_tab > 0
            ==> after.active_tab == before.active_tab - 1,
        k.code == KeyCode::Esc ==> before.current().cancelled(before.engine, after.current()),
        k.code == KeyCode::Enter ==> before.current().scrub_applied(before.engine, after.current()),
        k.code == KeyCode::Char('t') && k.control_only ==> after.views@.len() == before.views@.len()
            + 1 && after.active_tab == before.views@.len(),
        k.code == KeyCode::Char('w') && k.control_only && before.views@.len() > 1
            ==> after.views@.len() == before.views@.len() - 1,
        k.code == KeyCode::Char('w') && k.control_only && before.views@.len() <= 1 ==> effect is Quit,
        k.code == KeyCode::Char('c') && k.control_only ==> effect is Quit,
{
}

/// `Enter` hands the typed text to the filter of the prompt's kind, or to the
/// jump; `Esc` drops it. Either way the prompt is gone.
pub proof fn law_prompts_apply_their_text(before: App, code: KeyCode, after: App, effect: Effect)
    requires
        before.input is Some,
        before.active_tab < before.views@.len(),
        before.prompted(code, after, effect),
    ensures
        ({
            let p = input::opt_input(before.input)->0;
            let (v, w) = (before.current(), after.current());
            &&& code == KeyCode::Enter || code == KeyCode::Esc ==> after.input is None
            &&& code == KeyCode::Esc ==> w == v && effect is Nothing
            &&& code == KeyCode::Enter ==> {
                &&& p.mode == Mode::Search ==> v.regex_set(before.engine, p.text, w)
                &&& p.mode == Mode::Filter ==> v.field_filter_added(before.engine, p.text, w)
                &&& p.mode == Mode::Dsl ==> v.query_set(before.engine, p.text, w)
                &&& p.mode == Mode::Save ==> (effect matches Effect::Save(path) && path@ == p.text)
                &&& p.mode == Mode::JumpTime && crate::engine::parse::partial_rfc3339(p.text) is Some
                    ==> v.jumped_to_time(
                    before.engine,
                    crate::engine::parse::partial_rfc3339(p.text)->0 as i64,
                    w,
                )
            }
        }),
{
}

} // verus!
