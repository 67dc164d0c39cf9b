//! What a view's filters ask for: a regex, field values, severity levels, a
//! stretch of time and a query, all of which a record has to meet.

use vstd::prelude::*;
use vstd::string::*;

use crate::engine::dsl;
use crate::engine::predicate::{Rule, TimeRelation};
use crate::engine::record::severity;
use crate::engine::Engine;
use crate::pattern;
use crate::text;

verus! {

/// The least of some levels.
pub open spec fn least(levels: Seq<u8>) -> u8
    decreases levels.len(),
{
    if levels.len() <= 1 {
        levels[0]
    } else {
        let m = least(levels.drop_last());
        if levels.last() < m {
            levels.last()
        } else {
            m
        }
    }
}

/// The levels from `min` up to fatal.
pub open spec fn up_to_fatal(min: u8) -> Seq<u8> {
    Seq::new(
        if min <= severity::FATAL {
            (severity::FATAL - min + 1) as nat
        } else {
            0
        },
        |i: int| (min + i) as u8,
    )
}

/// A list with those levels appended that it does not hold yet.
pub open spec fn with_missing(base: Seq<u8>, levels: Seq<u8>) -> Seq<u8>
    decreases levels.len(),
{
    if levels.len() == 0 {
        base
    } else {
        let before = with_missing(base, levels.drop_last());
        if before.contains(levels.last()) {
            before
        } else {
            before.push(levels.last())
        }
    }
}

/// Some levels and every level ranked above the least of them.
pub open spec fn expanded(levels: Seq<u8>) -> Seq<u8> {
    if levels.len() == 0 {
        Seq::empty()
    } else {
        with_missing(up_to_fatal(least(levels)), levels)
    }
}

fn holds_level(levels: &Vec<u8>, l: u8) -> (r: bool)
    ensures
        r == levels@.contains(l),
{
    let mut i: usize = 0;
    while i < levels.len()
        invariant
            i <= levels@.len(),
            forall|k: int| 0 <= k < i ==> levels@[k] != l,
        decreases levels@.len() - i,
    {
        if levels[i] == l {
            return true;
        }
        i = i + 1;
    }
    false
}

/// Given a set of severity levels, return the same set plus every level ranked
/// above the lowest one. Choosing `Warn` with min-mode on means "warn and
/// everything above".
pub fn expand_min(levels: &[u8]) -> (r: Vec<u8>)
    ensures
        r@ == expanded(levels@),
{
    let mut out: Vec<u8> = Vec::new();
    if levels.len() == 0 {
        assert(out@ =~= expanded(levels@));
        return out;
    }
    let mut min: u8 = levels[0];
    let mut i: usize = 1;
    while i < levels.len()
        invariant
            1 <= i <= levels@.len(),
            min == least(levels@.take(i as int)),
        decreases levels@.len() - i,
    {
        assert(levels@.take(i + 1).drop_last() =~= levels@.take(i as int));
        if levels[i] < min {
            min = levels[i];
        }
        i = i + 1;
    }
    assert(levels@.take(levels@.len() as int) =~= levels@);
    let mut l: u8 = min;
    while l <= severity::FATAL
        invariant
            min <= l,
            l <= severity::FATAL + 1 || l == min,
            out@.len() == l - min,
            forall|k: int| 0 <= k < out@.len() ==> out@[k] == min + k,
        decreases severity::FATAL + 1 - l,
    {
        out.push(l);
        l = l + 1;
    }
    assert(out@ =~= up_to_fatal(min));
    let ghost base = out@;
    let mut i: usize = 0;
    assert(levels@.take(0) =~= Seq::empty());
    while i < levels.len()
        invariant
            i <= levels@.len(),
            out@ == with_missing(base, levels@.take(i as int)),
        decreases levels@.len() - i,
    {
        assert(levels@.take(i + 1).drop_last() =~= levels@.take(i as int));
        if !holds_level(&out, levels[i]) {
            out.push(levels[i]);
        }
        i = i + 1;
    }
    assert(levels@.take(levels@.len() as int) =~= levels@);
    out
}

proof fn lemma_least(levels: Seq<u8>)
    requires
        levels.len() > 0,
    ensures
        levels.contains(least(levels)),
        forall|l: u8| #[trigger] levels.contains(l) ==> least(levels) <= l,
    decreases levels.len(),
{
    if levels.len() == 1 {
        assert(levels[0] == least(levels));
    } else {
        let prev = levels.drop_last();
        lemma_least(prev);
        let m = least(prev);
        let k = choose|k: int| 0 <= k < prev.len() && prev[k] == m;
        assert(levels[k] == m);
        assert(levels[levels.len() - 1] == levels.last());
        assert forall|l: u8| #[trigger] levels.contains(l) implies least(levels) <= l by {
            let j = choose|j: int| 0 <= j < levels.len() && levels[j] == l;
            if j < prev.len() {
                assert(prev[j] == l);
                assert(prev.contains(l));
            }
        }
    }
}

proof fn lemma_with_missing(base: Seq<u8>, levels: Seq<u8>)
    ensures
        forall|l: u8| #[trigger]
            with_missing(base, levels).contains(l) <==> base.contains(l) || levels.contains(l),
    decreases levels.len(),
{
    if levels.len() > 0 {
        let prev = levels.drop_last();
        let last = levels.last();
        lemma_with_missing(base, prev);
        let before = with_missing(base, prev);
        let after = with_missing(base, levels);
        assert forall|l: u8| #[trigger] after.contains(l) <==> base.contains(l) || levels.contains(
            l,
        ) by {
            assert(levels.contains(l) <==> prev.contains(l) || l == last) by {
                if levels.contains(l) {
                    let j = choose|j: int| 0 <= j < levels.len() && levels[j] == l;
                    if j < prev.len() {
                        assert(prev[j] == l);
                    }
                }
                if prev.contains(l) {
                    let j = choose|j: int| 0 <= j < prev.len() && prev[j] == l;
                    assert(levels[j] == l);
                }
                assert(levels[levels.len() - 1] == last);
            }
            assert(after.contains(l) <==> before.contains(l) || l == last) by {
                if !before.contains(last) {
                    assert(after[before.len() as int] == last);
                    if before.contains(l) {
                        let j = choose|j: int| 0 <= j < before.len() && before[j] == l;
                        assert(after[j] == l);
                    }
                }
            }
        }
    }
}

/// Min-mode keeps what was chosen, and adds exactly the levels between the
/// lowest of it and fatal.
pub proof fn law_min_mode_is_this_and_above(levels: Seq<u8>, l: u8)
    requires
        levels.len() > 0,
    ensures
        expanded(levels).contains(l) <==> levels.contains(l) || (l <= severity::FATAL && exists|c: u8|
            #[trigger] levels.contains(c) && c <= l),
{
    lemma_least(levels);
    let min = least(levels);
    let base = up_to_fatal(min);
    lemma_with_missing(base, levels);
    assert(base.contains(l) <==> min <= l <= severity::FATAL) by {
        if min <= l <= severity::FATAL {
            assert(base[l - min] == l);
        }
    }
}

/// Expanding ranks gives ranks.
pub proof fn lemma_expanded_ranks(levels: Seq<u8>)
    requires
        forall|i: int| 0 <= i < levels.len() ==> #[trigger] levels[i] < 8,
    ensures
        forall|i: int| 0 <= i < expanded(levels).len() ==> #[trigger] expanded(levels)[i] < 8,
{
    if levels.len() > 0 {
        assert forall|i: int| 0 <= i < expanded(levels).len() implies #[trigger] expanded(levels)[i]
            < 8 by {
            let l = expanded(levels)[i];
            assert(expanded(levels).contains(l));
            law_min_mode_is_this_and_above(levels, l);
            if levels.contains(l) {
                let k = choose|k: int| 0 <= k < levels.len() && levels[k] == l;
                assert(levels[k] < 8);
            }
        }
    }
}

/// What a view's filters ask for.
#[verifier::ext_equal]
pub struct Filters {
    pub regex: Option<Seq<char>>,
    pub fields: Seq<(Seq<char>, Seq<char>)>,
    pub levels: Seq<u8>,
    pub min_mode: bool,
    /// First and last instant.
    pub range: Option<(i64, i64)>,
    pub dsl: Option<Seq<char>>,
}

/// The texts of some pairs of strings.
pub open spec fn pair_texts(v: Seq<(String, String)>) -> Seq<(Seq<char>, Seq<char>)> {
    Seq::new(v.len(), |i: int| (v[i].0@, v[i].1@))
}

/// One rule per field filter.
pub open spec fn field_rules(fields: Seq<(Seq<char>, Seq<char>)>) -> Seq<Rule> {
    Seq::new(
        fields.len(),
        |i: int| Rule::FieldIs { field: fields[i].0, value: fields[i].1 },
    )
}

impl Filters {
    /// No filter is set.
    pub open spec fn none(self) -> bool {
        self.regex is None && self.fields.len() == 0 && self.levels.len() == 0 && self.range is None
            && self.dsl is None
    }

    /// The severity levels that are let through.
    pub open spec fn effective_levels(self) -> Seq<u8> {
        if self.min_mode {
            expanded(self.levels)
        } else {
            self.levels
        }
    }

    pub open spec fn level_rules(self) -> Seq<Rule> {
        if self.levels.len() == 0 {
            Seq::empty()
        } else {
            seq![Rule::SeverityIn { levels: self.effective_levels().to_set() }]
        }
    }

    /// Between the first and the last instant, both included.
    pub open spec fn range_rules(self) -> Seq<Rule> {
        match self.range {
            Some((lo, hi)) => seq![
                Rule::Time { relation: TimeRelation::GreaterEq, bound: lo },
                Rule::Time { relation: TimeRelation::LessEq, bound: hi },
            ],
            None => Seq::empty(),
        }
    }

    /// The rules of all filters, every one of which a record has to meet; or
    /// what is wrong with the regex or the query.
    pub open spec fn rules(self) -> Result<Seq<Rule>, Seq<char>> {
        match self.regex {
            Some(re) if pattern::bytes_regex_error(re) is Some => Err(
                "regex error: "@ + pattern::bytes_regex_error(re)->0,
            ),
            _ => {
                let first = match self.regex {
                    Some(re) => seq![Rule::LineMatches { pattern: re }],
                    None => Seq::empty(),
                };
                let base = first + field_rules(self.fields) + self.level_rules()
                    + self.range_rules();
                match self.dsl {
                    None => Ok(base),
                    Some(q) => match dsl::query(text::enc(q)) {
                        Ok(r) => Ok(base.push(r)),
                        Err(e) => Err("dsl error: "@ + e),
                    },
                }
            },
        }
    }
}

/// Filters that have rules have them with any range, and the range's two rules
/// stand one behind the other among them.
pub proof fn lemma_range_stands_in_rules(f: Filters, range: (i64, i64)) -> (k: int)
    requires
        f.rules() is Ok,
    ensures
        ({
            let rules = (Filters { range: Some(range), ..f }).rules();
            &&& rules is Ok
            &&& 0 <= k < rules->Ok_0.len() - 1
            &&& rules->Ok_0[k] == (Rule::Time {
                relation: TimeRelation::GreaterEq,
                bound: range.0,
            })
            &&& rules->Ok_0[k + 1] == (Rule::Time {
                relation: TimeRelation::LessEq,
                bound: range.1,
            })
        }),
{
    let g = Filters { range: Some(range), ..f };
    let first = match g.regex {
        Some(re) => seq![Rule::LineMatches { pattern: re }],
        None => Seq::<Rule>::empty(),
    };
    let before = first + field_rules(g.fields) + g.level_rules();
    assert((before + g.range_rules())[before.len() as int] == g.range_rules()[0]);
    assert((before + g.range_rules())[before.len() as int + 1] == g.range_rules()[1]);
    before.len() as int
}

/// All ids below `n`.
pub open spec fn all_ids(n: int) -> Seq<u64> {
    Seq::new(n as nat, |i: int| i as u64)
}

/// Without a rule every record is a hit.
pub proof fn lemma_no_rule_hits_all(engine: Engine, n: int)
    requires
        0 <= n <= u64::MAX,
    ensures
        engine.hits((Rule::All { parts: Seq::empty() }), n) =~= all_ids(n),
    decreases n,
{
    if n > 0 {
        lemma_no_rule_hits_all(engine, n - 1);
    }
}

/// Texts joined with ` & `.
pub open spec fn and_joined(parts: Seq<Seq<char>>) -> Seq<char>
    decreases parts.len(),
{
    if parts.len() == 0 {
        Seq::empty()
    } else if parts.len() == 1 {
        parts[0]
    } else {
        and_joined(parts.drop_last()) + " & "@ + parts.last()
    }
}

/// Join texts with ` & `.
pub(crate) fn join_and(parts: &Vec<String>) -> (r: String)
    ensures
        r@ == and_joined(text::texts(parts@)),
{
    let ghost all = text::texts(parts@);
    let mut out: String = String::new();
    let mut i: usize = 0;
    assert(all.take(0) =~= Seq::empty());
    assert(out@ =~= Seq::empty());
    while i < parts.len()
        invariant
            i <= parts@.len(),
            all == text::texts(parts@),
            out@ == and_joined(all.take(i as int)),
        decreases parts@.len() - i,
    {
        assert(all.take(i + 1).drop_last() =~= all.take(i as int));
        assert(all.take(i + 1).last() == parts@[i as int]@);
        if i > 0 {
            out.append(" & ");
        }
        out.append(parts[i].as_str());
        assert(out@ =~= and_joined(all.take(i + 1)));
        i = i + 1;
    }
    assert(all.take(all.len() as int) =~= all);
    out
}

} // verus!
