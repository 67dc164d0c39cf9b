//! Quick-summary stats over a filtered view.

use vstd::prelude::*;

use std::borrow::Cow;

use crate::engine::histogram;
use crate::engine::record::{severity, TS_UNTIMED};
use crate::engine::Engine;
use crate::order;
use crate::order::Ranked;
use crate::string_map;
use crate::string_map::StringMap;
use crate::text;

verus! {

/// Distinct values that are counted before a field is called high-cardinality.
pub const MAX_BUCKETS: usize = 1024;

#[derive(Debug)]
pub struct Stats {
    pub total: u64,
    /// Records per severity rank.
    pub by_severity: [u64; 8],
    pub timed: u64,
    pub untimed: u64,
    /// First and last timestamp, or `None` if no record carries one.
    pub t_min: Option<i64>,
    pub t_max: Option<i64>,
    /// Top values of one chosen field with their counts.
    pub top_values: Vec<(String, u64)>,
    /// The field whose top values are above. Empty when none was selected.
    pub top_field: String,
}

impl Default for Stats {
    fn default() -> (r: Self)
        ensures
            r.total == 0,
            r.timed == 0,
            r.untimed == 0,
            forall|i: int| 0 <= i < 8 ==> r.by_severity@[i] == 0,
            r.t_min is None,
            r.t_max is None,
            r.top_values@.len() == 0,
            r.top_field@.len() == 0,
    {
        Stats {
            total: 0,
            by_severity: [0, 0, 0, 0, 0, 0, 0, 0],
            timed: 0,
            untimed: 0,
            t_min: None,
            t_max: None,
            top_values: Vec::new(),
            top_field: String::new(),
        }
    }
}

/// How many records of a view have that severity.
pub open spec fn with_severity(engine: Engine, view: Seq<u64>, sev: int) -> nat
    decreases view.len(),
{
    if view.len() == 0 {
        0
    } else {
        with_severity(engine, view.drop_last(), sev) + if histogram::severity_at(
            engine,
            view.last(),
        ) == sev {
            1nat
        } else {
            0
        }
    }
}

/// The text of a field of an indexed record, as its format alone reads it.
pub open spec fn field_of(engine: Engine, id: u64, field: Seq<char>) -> Option<Seq<char>> {
    engine.format_at(engine.indexes.line.locs@[id as int].source_id).field(
        engine.bytes_of(id as int),
        field,
    )
}

/// Values of a field counted over a view.
pub struct Tally {
    /// Records per value.
    pub counts: Map<Seq<char>, u64>,
    /// Distinct values counted.
    pub buckets: nat,
    /// Some value found no free bucket.
    pub overflow: bool,
}

impl Tally {
    /// One more value: counted where it has a bucket or one is free.
    pub open spec fn counting(self, value: Seq<char>) -> Tally {
        if self.counts.contains_key(value) {
            Tally {
                counts: self.counts.insert(value, (self.counts[value] + 1) as u64),
                buckets: self.buckets,
                overflow: self.overflow,
            }
        } else if self.buckets < MAX_BUCKETS {
            Tally {
                counts: self.counts.insert(value, 1),
                buckets: self.buckets + 1,
                overflow: self.overflow,
            }
        } else {
            Tally { counts: self.counts, buckets: self.buckets, overflow: true }
        }
    }
}

/// The tally of a field over a view.
pub open spec fn tally(engine: Engine, view: Seq<u64>, field: Seq<char>) -> Tally
    decreases view.len(),
{
    if view.len() == 0 {
        Tally { counts: Map::empty(), buckets: 0, overflow: false }
    } else {
        let before = tally(engine, view.drop_last(), field);
        match field_of(engine, view.last(), field) {
            Some(v) => before.counting(v),
            None => before,
        }
    }
}

impl Ranked for (String, u64) {
    open spec fn may_precede(self, other: Self) -> bool {
        self.1 > other.1 || (self.1 == other.1 && !order::lex_less(
            text::enc(other.0@),
            text::enc(self.0@),
        ))
    }

    proof fn total(a: Self, b: Self) {
        order::lemma_lex_total(text::enc(a.0@), text::enc(b.0@));
    }

    proof fn transitive(a: Self, b: Self, c: Self) {
        let (x, y, z) = (text::enc(a.0@), text::enc(b.0@), text::enc(c.0@));
        order::lemma_lex_total(x, y);
        order::lemma_lex_total(y, z);
        order::lemma_lex_total(x, z);
        if order::lex_less(z, x) {
            if order::lex_less(x, y) {
                order::lemma_lex_transitive(z, x, y);
            }
        }
    }

    fn at_most(&self, other: &Self) -> (r: bool) {
        self.1 > other.1 || (self.1 == other.1 && !order::lex_before(
            other.0.as_str().as_bytes(),
            self.0.as_str().as_bytes(),
        ))
    }
}

/// `top` is the head of the counts ranked by count descending, then by value,
/// at most `n` entries.
pub open spec fn is_top(top: Seq<(String, u64)>, counts: Map<Seq<char>, u64>, n: int) -> bool {
    exists|all: Seq<(String, u64)>|
        {
            &&& #[trigger] string_map::map_of(all) == counts
            &&& string_map::distinct(all)
            &&& order::sorted(all)
            &&& top == if n < all.len() {
                all.take(n)
            } else {
                all
            }
        }
}

impl Stats {
    /// Build stats over the given view. `top_field` is the field to rank the
    /// values of; `""` skips that. `top_n` caps the returned list. Past
    /// [`MAX_BUCKETS`] distinct values new ones are no longer counted, and the
    /// field's name says so.
    pub fn build(engine: &Engine, view: &[u64], top_field: &str, top_n: usize) -> (r: Self)
        requires
            engine.wf(),
            top_field@.len() > 0 && top_n > 0 ==> forall|i: int|
                0 <= i < view@.len() ==> #[trigger] view@[i] < engine.indexes.line.locs@.len(),
        ensures
            r.total == view@.len(),
            forall|s: int|
                0 <= s < 8 ==> #[trigger] r.by_severity@[s] == with_severity(*engine, view@, s),
            r.untimed == histogram::untimed_in(*engine, view@),
            r.timed == view@.len() - histogram::untimed_in(*engine, view@),
            r.t_min == histogram::earliest(*engine, view@),
            r.t_max == histogram::latest(*engine, view@),
            top_field@.len() == 0 || top_n == 0 ==> r.top_values@.len() == 0 && r.top_field@.len()
                == 0,
            top_field@.len() > 0 && top_n > 0 ==> {
                let t = tally(*engine, view@, top_field@);
                &&& is_top(r.top_values@, t.counts, top_n as int)
                &&& r.top_field@ == top_field@ + if t.overflow {
                    " (high-card)"@
                } else {
                    Seq::empty()
                }
            },
    {
        let mut out: Stats = Stats::default();
        out.total = view.len() as u64;
        let mut i: usize = 0;
        assert(view@.take(0) =~= Seq::empty());
        while i < view.len()
            invariant
                i <= view@.len(),
                out.total == view@.len(),
                out.untimed + out.timed == i,
                out.untimed == histogram::untimed_in(*engine, view@.take(i as int)),
                out.t_min == histogram::earliest(*engine, view@.take(i as int)),
                out.t_max == histogram::latest(*engine, view@.take(i as int)),
                forall|s: int|
                    0 <= s < 8 ==> #[trigger] out.by_severity@[s] == with_severity(
                        *engine,
                        view@.take(i as int),
                        s,
                    ) && out.by_severity@[s] <= i,
                out.top_values@.len() == 0,
                out.top_field@.len() == 0,
            decreases view@.len() - i,
        {
            assert(view@.take(i + 1).drop_last() =~= view@.take(i as int));
            let id: u64 = view[i];
            let sev: u8 = match engine.indexes.severity.get(id) {
                Some(s) => s,
                None => severity::UNKNOWN,
            };
            let ghost before = out.by_severity@;
            if sev < 8 {
                let n: u64 = out.by_severity[sev as usize];
                assert(before[sev as int] <= i);
                out.by_severity[sev as usize] = n + 1;
            }
            let t: i64 = match engine.indexes.time.get(id) {
                Some(t) => t,
                None => TS_UNTIMED,
            };
            if t == TS_UNTIMED {
                out.untimed = out.untimed + 1;
            } else {
                out.timed = out.timed + 1;
                out.t_min = match out.t_min {
                    Some(m) => if t < m {
                        Some(t)
                    } else {
                        Some(m)
                    },
                    None => Some(t),
                };
                out.t_max = match out.t_max {
                    Some(m) => if t > m {
                        Some(t)
                    } else {
                        Some(m)
                    },
                    None => Some(t),
                };
            }
            assert forall|s: int| 0 <= s < 8 implies #[trigger] out.by_severity@[s]
                == with_severity(*engine, view@.take(i + 1), s) && out.by_severity@[s] <= i + 1 by {
                assert(before[s] <= i);
            }
            i = i + 1;
        }
        assert(view@.take(view@.len() as int) =~= view@);
        if !top_field.is_empty() && top_n > 0 {
            let (counts, overflow) = count_values(engine, view, top_field);
            let entries: Vec<(String, u64)> = counts.into_entries();
            let mut top: Vec<(String, u64)> = order::sort(entries);
            let ghost all = top@;
            proof {
                string_map::lemma_permuted(entries@, all);
            }
            top.truncate(top_n);
            proof {
                assert(top@ == if top_n < all.len() {
                    all.take(top_n as int)
                } else {
                    all
                });
                assert(is_top(top@, tally(*engine, view@, top_field@).counts, top_n as int));
            }
            out.top_values = top;
            out.top_field = top_field.to_owned();
            if overflow {
                out.top_field = out.top_field.concat(" (high-card)");
            } else {
                assert(top_field@ + Seq::<char>::empty() =~= top_field@);
            }
        }
        out
    }
}

fn count_values(engine: &Engine, view: &[u64], field: &str) -> (r: (StringMap<u64>, bool))
    requires
        engine.wf(),
        forall|i: int|
            0 <= i < view@.len() ==> #[trigger] view@[i] < engine.indexes.line.locs@.len(),
    ensures
        r.0.wf(),
        r.0@ == tally(*engine, view@, field@).counts,
        r.1 == tally(*engine, view@, field@).overflow,
{
    let n: usize = engine.indexes.len();
    let mut counts: StringMap<u64> = StringMap::new();
    let mut overflow: bool = false;
    let mut i: usize = 0;
    assert(view@.take(0) =~= Seq::empty());
    while i < view.len()
        invariant
            engine.wf(),
            n == engine.indexes.line.locs@.len(),
            i <= view@.len(),
            forall|k: int|
                0 <= k < view@.len() ==> #[trigger] view@[k] < engine.indexes.line.locs@.len(),
            counts.wf(),
            counts@ == tally(*engine, view@.take(i as int), field@).counts,
            counts.listed().len() == tally(*engine, view@.take(i as int), field@).buckets,
            overflow == tally(*engine, view@.take(i as int), field@).overflow,
            forall|k: Seq<char>| #[trigger] counts@.contains_key(k) ==> counts@[k] <= i,
        decreases view@.len() - i,
    {
        assert(view@.take(i + 1).drop_last() =~= view@.take(i as int));
        let id: u64 = view[i];
        assert(id < n);
        let source_id: u32 = engine.indexes.line.locs[id as usize].source_id;
        let value: Option<Cow<str>> = engine.format_of(source_id).project_field(
            engine.line_bytes(id),
            field,
        );
        let owned: Option<String> = match value {
            Some(Cow::Borrowed(s)) => Some(s.to_owned()),
            Some(Cow::Owned(s)) => Some(s),
            None => None,
        };
        match owned {
            None => {},
            Some(v) => {
                let known: Option<u64> = match counts.get(v.as_str()) {
                    Some(n) => Some(*n),
                    None => None,
                };
                match known {
                    Some(n) => {
                        counts.insert(v.as_str(), n + 1);
                    },
                    None => {
                        if counts.len() < MAX_BUCKETS {
                            counts.insert(v.as_str(), 1);
                        } else {
                            overflow = true;
                        }
                    },
                }
            },
        }
        i = i + 1;
    }
    assert(view@.take(view@.len() as int) =~= view@);
    (counts, overflow)
}

/// The records of a severity are those of the view that have it.
pub proof fn law_severities_are_counted(engine: Engine, view: Seq<u64>, sev: int)
    ensures
        with_severity(engine, view, sev) == view.filter(
            |id: u64| histogram::severity_at(engine, id) == sev,
        ).len(),
    decreases view.len(),
{
    reveal(Seq::filter);
    if view.len() > 0 {
        law_severities_are_counted(engine, view.drop_last(), sev);
    }
}

/// How many records of a view have that value in the field.
pub open spec fn with_value(engine: Engine, view: Seq<u64>, field: Seq<char>, value: Seq<char>) -> nat {
    view.filter(|id: u64| field_of(engine, id, field) == Some(value)).len()
}

proof fn lemma_counts(engine: Engine, view: Seq<u64>, field: Seq<char>, value: Seq<char>)
    requires
        view.len() < u64::MAX,
    ensures
        ({
            let t = tally(engine, view, field);
            &&& t.counts.contains_key(value) && !t.overflow ==> t.counts[value] == with_value(
                engine,
                view,
                field,
                value,
            )
            &&& t.counts.contains_key(value) ==> 0 < t.counts[value] <= with_value(
                engine,
                view,
                field,
                value,
            )
            &&& !t.overflow && !t.counts.contains_key(value) ==> with_value(
                engine,
                view,
                field,
                value,
            ) == 0
            &&& with_value(engine, view, field, value) <= view.len()
        }),
    decreases view.len(),
{
    reveal(Seq::filter);
    if view.len() > 0 {
        lemma_counts(engine, view.drop_last(), field, value);
        lemma_overflow_stays(engine, view, field);
    }
}

proof fn lemma_overflow_stays(engine: Engine, view: Seq<u64>, field: Seq<char>)
    requires
        view.len() > 0,
    ensures
        tally(engine, view.drop_last(), field).overflow ==> tally(engine, view, field).overflow,
{
}

/// The listed values of a field are the most common ones: each with the number
/// of records that have it, as long as every value found a bucket; the counts
/// never rise, equal ones stand in byte order of the values, and no value that
/// was left out has a higher count than one that is listed.
pub proof fn law_listed_values_are_the_most_common(
    engine: Engine,
    view: Seq<u64>,
    field: Seq<char>,
    top: Seq<(String, u64)>,
    n: int,
    i: int,
    j: int,
    other: Seq<char>,
)
    requires
        view.len() < u64::MAX,
        is_top(top, tally(engine, view, field).counts, n),
        !tally(engine, view, field).overflow,
        0 <= n,
        0 <= i < top.len(),
    ensures
        top.len() <= n,
        top[i].1 == with_value(engine, view, field, top[i].0@),
        i < j < top.len() ==> top[i].1 >= top[j].1 && top[i].0@ != top[j].0@ && (top[i].1 == top[j].1
            ==> order::lex_less(text::enc(top[i].0@), text::enc(top[j].0@))),
        (forall|k: int| 0 <= k < top.len() ==> (#[trigger] top[k]).0@ != other) ==> with_value(
            engine,
            view,
            field,
            other,
        ) <= top[i].1,
        (exists|k: int| 0 <= k < top.len() && (#[trigger] top[k]).0@ == other) || with_value(
            engine,
            view,
            field,
            other,
        ) == 0 || top.len() == n,
{
    let counts = tally(engine, view, field).counts;
    let all = choose|all: Seq<(String, u64)>|
        {
            &&& #[trigger] string_map::map_of(all) == counts
            &&& string_map::distinct(all)
            &&& order::sorted(all)
            &&& top == if n < all.len() {
                all.take(n)
            } else {
                all
            }
        };
    assert(top[i] == all[i]);
    string_map::lemma_entry(all, i);
    lemma_counts(engine, view, field, top[i].0@);
    if i < j < top.len() {
        assert(top[j] == all[j]);
        assert(all[i].may_precede(all[j]));
        assert(all[i].0@ != all[j].0@);
        order::lemma_lex_total(text::enc(top[i].0@), text::enc(top[j].0@));
        text::lemma_encoding_injective(top[i].0@, top[j].0@);
    }
    lemma_counts(engine, view, field, other);
    if with_value(engine, view, field, other) > 0 {
        assert(counts.contains_key(other));
        let k = choose|k: int| string_map::key_at(all, other, k);
        assert(string_map::key_at(all, other, k));
        string_map::lemma_entry(all, k);
        if k < top.len() {
            assert(top[k] == all[k]);
        } else {
            assert(all[i].may_precede(all[k]));
        }
    }
}

/// A value that was seen is counted once more. A new one is counted from one
/// as long as there are fewer than 1024; past that it is left out, and the
/// overflow is kept in mind.
pub proof fn law_values_are_counted(t: Tally, value: Seq<char>, other: Seq<char>)
    requires
        t.counts.contains_key(value) ==> t.counts[value] < u64::MAX,
    ensures
        ({
            let after = t.counting(value);
            &&& t.counts.contains_key(value) ==> after.counts[value] == t.counts[value] + 1
                && after.overflow == t.overflow && after.buckets == t.buckets
            &&& !t.counts.contains_key(value) && t.buckets < 1024 ==> after.counts.contains_key(
                value,
            ) && after.counts[value] == 1 && after.overflow == t.overflow && after.buckets
                == t.buckets + 1
            &&& !t.counts.contains_key(value) && t.buckets >= 1024 ==> after.counts == t.counts
                && after.overflow
            &&& other != value ==> after.counts.contains_key(other) == t.counts.contains_key(other)
                && (t.counts.contains_key(other) ==> after.counts[other] == t.counts[other])
        }),
{
}

} // verus!
