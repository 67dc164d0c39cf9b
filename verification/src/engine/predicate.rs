//! One predicate machine for search, field-equals, and time-range.
//!
//! Search is not a separate engine: every filter is a predicate over one
//! record, and predicates compose. Raw lines are matched as bytes; logs are
//! not guaranteed to be valid UTF-8.

use vstd::prelude::*;

use crate::engine::format::{Dialect, FieldCache};
use crate::engine::record::{RawRecord, TS_UNTIMED};
use crate::pattern;
use crate::text;

verus! {

/// What a predicate asks of a record.
pub enum Rule {
    /// The raw line matches a byte pattern.
    LineMatches { pattern: Seq<char> },
    /// A field has exactly this text.
    FieldIs { field: Seq<char>, value: Seq<char> },
    /// A field's text matches a pattern.
    FieldMatches { field: Seq<char>, pattern: Seq<char> },
    Not { inner: Box<Rule> },
    /// The timestamp stands in this relation to a bound.
    Time { relation: TimeRelation, bound: i64 },
    /// The severity is one of a set.
    SeverityIn { levels: Set<u8> },
    All { parts: Seq<Rule> },
    Any { parts: Seq<Rule> },
}

/// How a timestamp may stand to a bound.
#[derive(Debug, Clone, Copy, PartialEq, Eq, Structural)]
pub enum TimeRelation {
    Greater,
    GreaterEq,
    Less,
    LessEq,
}

/// A timed record stands in the relation; an untimed one never does.
pub open spec fn time_holds(relation: TimeRelation, bound: i64, ts: i64) -> bool {
    ts != TS_UNTIMED && match relation {
        TimeRelation::Greater => ts > bound,
        TimeRelation::GreaterEq => ts >= bound,
        TimeRelation::Less => ts < bound,
        TimeRelation::LessEq => ts <= bound,
    }
}

impl Rule {
    /// The rule holds of a record with this timestamp and severity, whose
    /// line is in this dialect.
    pub open spec fn holds(self, ts: i64, sev: u8, dialect: Dialect, line: Seq<u8>) -> bool
        decreases self,
    {
        match self {
            Rule::LineMatches { pattern } => pattern::bytes_matches(pattern, line),
            Rule::FieldIs { field, value } => dialect.field(line, field) == Some(value),
            Rule::FieldMatches { field, pattern } => match dialect.field(line, field) {
                Some(v) => pattern::text_matches(pattern, v),
                None => false,
            },
            Rule::Not { inner } => !inner.holds(ts, sev, dialect, line),
            Rule::Time { relation, bound } => time_holds(relation, bound, ts),
            Rule::SeverityIn { levels } => levels.contains(sev),
            Rule::All { parts } => forall|i: int|
                0 <= i < parts.len() ==> (#[trigger] parts[i]).holds(ts, sev, dialect, line),
            Rule::Any { parts } => exists|i: int|
                0 <= i < parts.len() && (#[trigger] parts[i]).holds(ts, sev, dialect, line),
        }
    }
}

/// Decision: does this record match? A predicate is a pure function of its
/// inputs; `cache` gives it the record's line and fields, parsing each field
/// at most once per record.
pub trait Predicate: Send + Sync {
    /// What it asks of a record. A predicate that does not say leaves it open.
    open spec fn rule(&self) -> Rule {
        arbitrary()
    }

    fn matches(&self, rec: &RawRecord, cache: &mut FieldCache<'_>) -> (r: bool)
        requires
            old(cache).wf(),
        ensures
            r == self.rule().holds(
                rec.ts_micros,
                rec.severity,
                old(cache).dialect(),
                old(cache).line(),
            ),
            final(cache).wf(),
            final(cache).dialect() == old(cache).dialect(),
            final(cache).line() == old(cache).line(),
    ;
}

/// The raw line matches a byte pattern.
pub struct RegexBytesPredicate {
    re: regex::bytes::Regex,
}

impl RegexBytesPredicate {
    /// Compile a pattern; the error says what is wrong with it.
    pub fn new(pattern: &str) -> (r: Result<Self, String>)
        ensures
            match r {
                Ok(p) => pattern::bytes_regex_error(pattern@) is None && p.rule() == (
                Rule::LineMatches { pattern: pattern@ }),
                Err(e) => pattern::bytes_regex_error(pattern@) == Some(e@),
            },
    {
        match pattern::compile_bytes(pattern) {
            Ok(re) => Ok(RegexBytesPredicate { re }),
            Err(e) => Err(e),
        }
    }
}

impl Predicate for RegexBytesPredicate {
    closed spec fn rule(&self) -> Rule {
        Rule::LineMatches { pattern: pattern::bytes_pattern(self.re) }
    }

    fn matches(&self, _rec: &RawRecord, cache: &mut FieldCache<'_>) -> (r: bool) {
        pattern::is_match_bytes(&self.re, cache.raw())
    }
}

/// A field equals the given value, compared as text. JSON strings compare by
/// what stands between their quotes.
pub struct FieldEqualsPredicate {
    field: String,
    value: String,
}

impl FieldEqualsPredicate {
    pub fn new(field: String, value: String) -> (r: Self)
        ensures
            r.rule() == (Rule::FieldIs { field: field@, value: value@ }),
    {
        FieldEqualsPredicate { field, value }
    }
}

impl Predicate for FieldEqualsPredicate {
    closed spec fn rule(&self) -> Rule {
        Rule::FieldIs { field: self.field@, value: self.value@ }
    }

    fn matches(&self, _rec: &RawRecord, cache: &mut FieldCache<'_>) -> (r: bool) {
        match cache.get(self.field.as_str()) {
            Some(v) => text::str_eq(v, self.value.as_str()),
            None => false,
        }
    }
}

/// Field-targeted regex predicate: matches the text of a named field.
pub struct FieldRegexPredicate {
    field: String,
    re: regex::Regex,
}

impl FieldRegexPredicate {
    /// Compile a pattern; the error says what is wrong with it.
    pub fn new(field: String, pattern: &str) -> (r: Result<Self, String>)
        ensures
            match r {
                Ok(p) => pattern::text_regex_error(pattern@) is None && p.rule() == (
                Rule::FieldMatches { field: field@, pattern: pattern@ }),
                Err(e) => pattern::text_regex_error(pattern@) == Some(e@),
            },
    {
        match pattern::compile_text(pattern) {
            Ok(re) => Ok(FieldRegexPredicate { field, re }),
            Err(e) => Err(e),
        }
    }
}

impl Predicate for FieldRegexPredicate {
    closed spec fn rule(&self) -> Rule {
        Rule::FieldMatches { field: self.field@, pattern: pattern::text_pattern(self.re) }
    }

    fn matches(&self, _rec: &RawRecord, cache: &mut FieldCache<'_>) -> (r: bool) {
        match cache.get(self.field.as_str()) {
            Some(v) => pattern::is_match_text(&self.re, v),
            None => false,
        }
    }
}

/// Time-range predicate: compares a record's timestamp to a fixed bound.
pub struct TimeRangePredicate {
    bound: i64,
    relation: TimeRelation,
}

impl TimeRangePredicate {
    pub fn greater_than(bound: i64) -> (r: Self)
        ensures
            r.rule() == (Rule::Time { relation: TimeRelation::Greater, bound }),
    {
        TimeRangePredicate { bound, relation: TimeRelation::Greater }
    }

    pub fn at_or_after(bound: i64) -> (r: Self)
        ensures
            r.rule() == (Rule::Time { relation: TimeRelation::GreaterEq, bound }),
    {
        TimeRangePredicate { bound, relation: TimeRelation::GreaterEq }
    }

    pub fn less_than(bound: i64) -> (r: Self)
        ensures
            r.rule() == (Rule::Time { relation: TimeRelation::Less, bound }),
    {
        TimeRangePredicate { bound, relation: TimeRelation::Less }
    }

    pub fn at_or_before(bound: i64) -> (r: Self)
        ensures
            r.rule() == (Rule::Time { relation: TimeRelation::LessEq, bound }),
    {
        TimeRangePredicate { bound, relation: TimeRelation::LessEq }
    }
}

impl Predicate for TimeRangePredicate {
    closed spec fn rule(&self) -> Rule {
        Rule::Time { relation: self.relation, bound: self.bound }
    }

    fn matches(&self, rec: &RawRecord, _cache: &mut FieldCache<'_>) -> (r: bool) {
        if rec.ts_micros == TS_UNTIMED {
            return false;
        }
        match self.relation {
            TimeRelation::Greater => rec.ts_micros > self.bound,
            TimeRelation::GreaterEq => rec.ts_micros >= self.bound,
            TimeRelation::Less => rec.ts_micros < self.bound,
            TimeRelation::LessEq => rec.ts_micros <= self.bound,
        }
    }
}

/// Bit `s` of a mask is set.
pub open spec fn has_bit(mask: u8, s: u8) -> bool {
    s < 8 && (mask >> s) & 1 == 1
}

/// Severity filter: keep records whose severity is one of the allowed levels.
pub struct SeverityInPredicate {
    /// Bit `1 << sev` is set for each allowed severity.
    mask: u8,
}

impl SeverityInPredicate {
    pub fn new(levels: &[u8]) -> (r: Self)
        requires
            forall|i: int| 0 <= i < levels@.len() ==> #[trigger] levels@[i] < 8,
        ensures
            r.rule() == (Rule::SeverityIn { levels: levels@.to_set() }),
    {
        let mut mask: u8 = 0;
        let mut i: usize = 0;
        assert forall|s: u8| !has_bit(0, s) by {
            assert(s < 8 ==> (0u8 >> s) & 1 != 1) by (bit_vector);
        }
        while i < levels.len()
            invariant
                i <= levels@.len(),
                forall|k: int| 0 <= k < levels@.len() ==> #[trigger] levels@[k] < 8,
                forall|s: u8| #[trigger]
                    has_bit(mask, s) <==> exists|k: int| 0 <= k < i && #[trigger] levels@[k] == s,
            decreases levels@.len() - i,
        {
            let lv: u8 = levels[i];
            let before: u8 = mask;
            mask = before | (1u8 << lv);
            assert forall|s: u8| #[trigger]
                has_bit(mask, s) <==> exists|k: int|
                    0 <= k < i + 1 && #[trigger] levels@[k] == s by {
                if s < 8 {
                    assert(((before | (1u8 << lv)) >> s) & 1 == 1 <==> ((before >> s) & 1 == 1 || s
                        == lv)) by (bit_vector)
                        requires
                            s < 8,
                            lv < 8,
                    ;
                }
                if has_bit(before, s) {
                    let k = choose|k: int| 0 <= k < i && #[trigger] levels@[k] == s;
                    assert(levels@[k] == s);
                }
                if s == lv {
                    assert(levels@[i as int] == s);
                }
                if exists|k: int| 0 <= k < i + 1 && #[trigger] levels@[k] == s {
                    let k = choose|k: int| 0 <= k < i + 1 && #[trigger] levels@[k] == s;
                    if k < i {
                        assert(has_bit(before, s));
                    }
                }
            }
            i = i + 1;
        }
        let r = SeverityInPredicate { mask };
        proof {
            let want = levels@.to_set();
            assert forall|s: u8| has_bit(mask, s) <==> want.contains(s) by {
                if has_bit(mask, s) {
                    let k = choose|k: int| 0 <= k < i && #[trigger] levels@[k] == s;
                    assert(levels@.contains(s));
                }
                if want.contains(s) {
                    let k = choose|k: int| 0 <= k < levels@.len() && levels@[k] == s;
                    assert(levels@[k] == s);
                }
            }
            assert(Set::new(|s: u8| has_bit(mask, s)) =~= want);
        }
        r
    }
}

impl Predicate for SeverityInPredicate {
    closed spec fn rule(&self) -> Rule {
        Rule::SeverityIn { levels: Set::new(|s: u8| has_bit(self.mask, s)) }
    }

    fn matches(&self, rec: &RawRecord, _cache: &mut FieldCache<'_>) -> (r: bool) {
        rec.severity < 8 && (self.mask >> rec.severity) & 1 == 1
    }
}

/// Any of the predicates.
pub enum AnyPredicate {
    Regex(RegexBytesPredicate),
    FieldEquals(FieldEqualsPredicate),
    FieldRegex(FieldRegexPredicate),
    Not(NotPredicate),
    Time(TimeRangePredicate),
    SeverityIn(SeverityInPredicate),
    And(AndPredicate),
    Or(OrPredicate),
}

/// Negation: inverts the inner predicate's verdict.
pub struct NotPredicate {
    pub inner: Box<AnyPredicate>,
}

/// AND-composition of any predicates. Empty composition matches everything.
pub struct AndPredicate {
    pub parts: Vec<AnyPredicate>,
}

/// OR-composition. Empty composition matches nothing.
pub struct OrPredicate {
    pub parts: Vec<AnyPredicate>,
}

/// The rule of a predicate.
pub open spec fn rule_of(p: AnyPredicate) -> Rule
    decreases p,
{
    match p {
        AnyPredicate::Regex(x) => x.rule(),
        AnyPredicate::FieldEquals(x) => x.rule(),
        AnyPredicate::FieldRegex(x) => x.rule(),
        AnyPredicate::Not(x) => Rule::Not { inner: Box::new(rule_of(*x.inner)) },
        AnyPredicate::Time(x) => x.rule(),
        AnyPredicate::SeverityIn(x) => x.rule(),
        AnyPredicate::And(x) => Rule::All {
            parts: Seq::new(
                x.parts@.len(),
                |i: int|
                    if 0 <= i < x.parts@.len() {
                        rule_of(x.parts@[i])
                    } else {
                        arbitrary()
                    },
            ),
        },
        AnyPredicate::Or(x) => Rule::Any {
            parts: Seq::new(
                x.parts@.len(),
                |i: int|
                    if 0 <= i < x.parts@.len() {
                        rule_of(x.parts@[i])
                    } else {
                        arbitrary()
                    },
            ),
        },
    }
}

/// The rules of a list of predicates.
pub open spec fn rules_of(parts: Seq<AnyPredicate>) -> Seq<Rule> {
    Seq::new(parts.len(), |i: int| rule_of(parts[i]))
}

fn eval(p: &AnyPredicate, rec: &RawRecord, cache: &mut FieldCache<'_>) -> (r: bool)
    requires
        old(cache).wf(),
    ensures
        r == rule_of(*p).holds(
            rec.ts_micros,
            rec.severity,
            old(cache).dialect(),
            old(cache).line(),
        ),
        final(cache).wf(),
        final(cache).dialect() == old(cache).dialect(),
        final(cache).line() == old(cache).line(),
    decreases p,
{
    let ghost dialect = cache.dialect();
    let ghost line = cache.line();
    match p {
        AnyPredicate::Regex(x) => x.matches(rec, cache),
        AnyPredicate::FieldEquals(x) => x.matches(rec, cache),
        AnyPredicate::FieldRegex(x) => x.matches(rec, cache),
        AnyPredicate::Not(x) => !eval(&x.inner, rec, cache),
        AnyPredicate::Time(x) => x.matches(rec, cache),
        AnyPredicate::SeverityIn(x) => x.matches(rec, cache),
        AnyPredicate::And(x) => {
            let ghost rules = rule_of(*p)->All_parts;
            let mut i: usize = 0;
            while i < x.parts.len()
                invariant
                    i <= x.parts@.len(),
                    *p == AnyPredicate::And(*x),
                    rules == rule_of(*p)->All_parts,
                    rules.len() == x.parts@.len(),
                    cache.wf(),
                    dialect == old(cache).dialect(),
                    line == old(cache).line(),
                    cache.dialect() == dialect,
                    cache.line() == line,
                    forall|k: int|
                        0 <= k < i ==> (#[trigger] rules[k]).holds(
                            rec.ts_micros,
                            rec.severity,
                            dialect,
                            line,
                        ),
                decreases x.parts@.len() - i,
            {
                assert(rules[i as int] == rule_of(x.parts@[i as int]));
                if !eval(&x.parts[i], rec, cache) {
                    return false;
                }
                i = i + 1;
            }
            true
        },
        AnyPredicate::Or(x) => {
            let ghost rules = rule_of(*p)->Any_parts;
            let mut i: usize = 0;
            while i < x.parts.len()
                invariant
                    i <= x.parts@.len(),
                    *p == AnyPredicate::Or(*x),
                    rules == rule_of(*p)->Any_parts,
                    rules.len() == x.parts@.len(),
                    cache.wf(),
                    dialect == old(cache).dialect(),
                    line == old(cache).line(),
                    cache.dialect() == dialect,
                    cache.line() == line,
                    forall|k: int|
                        0 <= k < i ==> !(#[trigger] rules[k]).holds(
                            rec.ts_micros,
                            rec.severity,
                            dialect,
                            line,
                        ),
                decreases x.parts@.len() - i,
            {
                assert(rules[i as int] == rule_of(x.parts@[i as int]));
                if eval(&x.parts[i], rec, cache) {
                    return true;
                }
                i = i + 1;
            }
            false
        },
    }
}

impl Predicate for AnyPredicate {
    open spec fn rule(&self) -> Rule {
        rule_of(*self)
    }

    fn matches(&self, rec: &RawRecord, cache: &mut FieldCache<'_>) -> (r: bool) {
        eval(self, rec, cache)
    }
}

impl NotPredicate {
    pub fn new(inner: AnyPredicate) -> (r: Self)
        ensures
            *r.inner == inner,
            r.rule() == (Rule::Not { inner: Box::new(inner.rule()) }),
    {
        NotPredicate { inner: Box::new(inner) }
    }
}

impl Predicate for NotPredicate {
    open spec fn rule(&self) -> Rule {
        Rule::Not { inner: Box::new(rule_of(*self.inner)) }
    }

    fn matches(&self, rec: &RawRecord, cache: &mut FieldCache<'_>) -> (r: bool) {
        !eval(&self.inner, rec, cache)
    }
}

impl AndPredicate {
    pub fn new() -> (r: Self)
        ensures
            r.parts@.len() == 0,
    {
        AndPredicate { parts: Vec::new() }
    }

    pub fn push(&mut self, p: AnyPredicate)
        ensures
            final(self).parts@ == old(self).parts@.push(p),
    {
        self.parts.push(p);
    }

    pub fn is_empty(&self) -> (r: bool)
        ensures
            r == (self.parts@.len() == 0),
    {
        self.parts.len() == 0
    }

    pub fn len(&self) -> (r: usize)
        ensures
            r == self.parts@.len(),
    {
        self.parts.len()
    }
}

impl Default for AndPredicate {
    fn default() -> (r: Self)
        ensures
            r.parts@.len() == 0,
    {
        AndPredicate::new()
    }
}

impl Predicate for AndPredicate {
    open spec fn rule(&self) -> Rule {
        Rule::All { parts: rules_of(self.parts@) }
    }

    fn matches(&self, rec: &RawRecord, cache: &mut FieldCache<'_>) -> (r: bool) {
        let ghost dialect = cache.dialect();
        let ghost line = cache.line();
        let ghost rules = rules_of(self.parts@);
        proof {
            lemma_all_holds(rules, rec.ts_micros, rec.severity, dialect, line);
        }
        let mut i: usize = 0;
        while i < self.parts.len()
            invariant
                i <= self.parts@.len(),
                rules == rules_of(self.parts@),
                self.rule().holds(rec.ts_micros, rec.severity, dialect, line) == (forall|k: int|
                    0 <= k < rules.len() ==> (#[trigger] rules[k]).holds(
                        rec.ts_micros,
                        rec.severity,
                        dialect,
                        line,
                    )),
                cache.wf(),
                dialect == old(cache).dialect(),
                line == old(cache).line(),
                cache.dialect() == dialect,
                cache.line() == line,
                forall|k: int|
                    0 <= k < i ==> (#[trigger] rules[k]).holds(
                        rec.ts_micros,
                        rec.severity,
                        dialect,
                        line,
                    ),
            decreases self.parts@.len() - i,
        {
            assert(rules[i as int] == rule_of(self.parts@[i as int]));
            if !eval(&self.parts[i], rec, cache) {
                return false;
            }
            i = i + 1;
        }
        true
    }
}

impl OrPredicate {
    pub fn new() -> (r: Self)
        ensures
            r.parts@.len() == 0,
    {
        OrPredicate { parts: Vec::new() }
    }

    pub fn push(&mut self, p: AnyPredicate)
        ensures
            final(self).parts@ == old(self).parts@.push(p),
    {
        self.parts.push(p);
    }

    pub fn is_empty(&self) -> (r: bool)
        ensures
            r == (self.parts@.len() == 0),
    {
        self.parts.len() == 0
    }

    pub fn len(&self) -> (r: usize)
        ensures
            r == self.parts@.len(),
    {
        self.parts.len()
    }
}

impl Default for OrPredicate {
    fn default() -> (r: Self)
        ensures
            r.parts@.len() == 0,
    {
        OrPredicate::new()
    }
}

impl Predicate for OrPredicate {
    open spec fn rule(&self) -> Rule {
        Rule::Any { parts: rules_of(self.parts@) }
    }

    fn matches(&self, rec: &RawRecord, cache: &mut FieldCache<'_>) -> (r: bool) {
        let ghost dialect = cache.dialect();
        let ghost line = cache.line();
        let ghost rules = rules_of(self.parts@);
        proof {
            lemma_any_holds(rules, rec.ts_micros, rec.severity, dialect, line);
        }
        let mut i: usize = 0;
        while i < self.parts.len()
            invariant
                i <= self.parts@.len(),
                rules == rules_of(self.parts@),
                self.rule().holds(rec.ts_micros, rec.severity, dialect, line) == (exists|k: int|
                    0 <= k < rules.len() && (#[trigger] rules[k]).holds(
                        rec.ts_micros,
                        rec.severity,
                        dialect,
                        line,
                    )),
                cache.wf(),
                dialect == old(cache).dialect(),
                line == old(cache).line(),
                cache.dialect() == dialect,
                cache.line() == line,
                forall|k: int|
                    0 <= k < i ==> !(#[trigger] rules[k]).holds(
                        rec.ts_micros,
                        rec.severity,
                        dialect,
                        line,
                    ),
            decreases self.parts@.len() - i,
        {
            assert(rules[i as int] == rule_of(self.parts@[i as int]));
            if eval(&self.parts[i], rec, cache) {
                return true;
            }
            i = i + 1;
        }
        false
    }
}

/// A conjunction wrapped as any predicate keeps its rule.
pub proof fn lemma_rule_of_and(and: AndPredicate)
    ensures
        rule_of(AnyPredicate::And(and)) == and.rule(),
{
    assert(rule_of(AnyPredicate::And(and))->All_parts =~= rules_of(and.parts@));
}

/// A disjunction wrapped as any predicate keeps its rule.
pub proof fn lemma_rule_of_or(or: OrPredicate)
    ensures
        rule_of(AnyPredicate::Or(or)) == or.rule(),
{
    assert(rule_of(AnyPredicate::Or(or))->Any_parts =~= rules_of(or.parts@));
}

/// Negating twice changes nothing.
pub proof fn law_double_negation(r: Rule, ts: i64, sev: u8, dialect: Dialect, line: Seq<u8>)
    ensures
        (Rule::Not { inner: Box::new(Rule::Not { inner: Box::new(r) }) }).holds(
            ts,
            sev,
            dialect,
            line,
        ) == r.holds(ts, sev, dialect, line),
{
    reveal_with_fuel(Rule::holds, 3);
}

/// An empty conjunction matches everything, an empty disjunction nothing.
pub proof fn law_empty_compositions(ts: i64, sev: u8, dialect: Dialect, line: Seq<u8>)
    ensures
        (Rule::All { parts: Seq::empty() }).holds(ts, sev, dialect, line),
        !(Rule::Any { parts: Seq::empty() }).holds(ts, sev, dialect, line),
{
}

/// A conjunction holds when every part does.
pub proof fn lemma_all_holds(
    parts: Seq<Rule>,
    ts: i64,
    sev: u8,
    dialect: Dialect,
    line: Seq<u8>,
)
    ensures
        (Rule::All { parts }).holds(ts, sev, dialect, line) == (forall|i: int|
            0 <= i < parts.len() ==> (#[trigger] parts[i]).holds(ts, sev, dialect, line)),
{
    reveal_with_fuel(Rule::holds, 2);
    let rule = Rule::All { parts };
    assert(rule->All_parts == parts);
    if forall|i: int| 0 <= i < parts.len() ==> (#[trigger] parts[i]).holds(ts, sev, dialect, line) {
    } else {
        let i = choose|i: int|
            0 <= i < parts.len() && !(#[trigger] parts[i]).holds(ts, sev, dialect, line);
        assert(!rule->All_parts[i].holds(ts, sev, dialect, line));
    }
}

/// A disjunction holds when some part does.
pub proof fn lemma_any_holds(
    parts: Seq<Rule>,
    ts: i64,
    sev: u8,
    dialect: Dialect,
    line: Seq<u8>,
)
    ensures
        (Rule::Any { parts }).holds(ts, sev, dialect, line) == (exists|i: int|
            0 <= i < parts.len() && (#[trigger] parts[i]).holds(ts, sev, dialect, line)),
{
    reveal_with_fuel(Rule::holds, 2);
    let rule = Rule::Any { parts };
    assert(rule->Any_parts == parts);
    if exists|i: int| 0 <= i < parts.len() && (#[trigger] parts[i]).holds(ts, sev, dialect, line) {
        let i = choose|i: int|
            0 <= i < parts.len() && (#[trigger] parts[i]).holds(ts, sev, dialect, line);
        assert(rule->Any_parts[i].holds(ts, sev, dialect, line));
    }
}

/// Adding a part to a conjunction narrows it to what that part accepts.
pub proof fn law_conjunction_narrows(
    parts: Seq<Rule>,
    r: Rule,
    ts: i64,
    sev: u8,
    dialect: Dialect,
    line: Seq<u8>,
)
    ensures
        (Rule::All { parts: parts.push(r) }).holds(ts, sev, dialect, line) == ((Rule::All {
            parts,
        }).holds(ts, sev, dialect, line) && r.holds(ts, sev, dialect, line)),
{
    let all = parts.push(r);
    assert(all[parts.len() as int] == r);
    lemma_all_holds(parts, ts, sev, dialect, line);
    lemma_all_holds(all, ts, sev, dialect, line);
    if (Rule::All { parts: all }).holds(ts, sev, dialect, line) {
        assert(all[parts.len() as int].holds(ts, sev, dialect, line));
        assert forall|i: int| 0 <= i < parts.len() implies (#[trigger] parts[i]).holds(
            ts,
            sev,
            dialect,
            line,
        ) by {
            assert(all[i] == parts[i]);
            assert(all[i].holds(ts, sev, dialect, line));
        }
    } else if (Rule::All { parts }).holds(ts, sev, dialect, line) {
        let i = choose|i: int|
            0 <= i < all.len() && !(#[trigger] all[i]).holds(ts, sev, dialect, line);
        if i < parts.len() {
            assert(parts[i] == all[i]);
            assert(parts[i].holds(ts, sev, dialect, line));
        }
    }
}

/// Adding a part to a disjunction widens it by what that part accepts.
pub proof fn law_disjunction_widens(
    parts: Seq<Rule>,
    r: Rule,
    ts: i64,
    sev: u8,
    dialect: Dialect,
    line: Seq<u8>,
)
    ensures
        (Rule::Any { parts: parts.push(r) }).holds(ts, sev, dialect, line) == ((Rule::Any {
            parts,
        }).holds(ts, sev, dialect, line) || r.holds(ts, sev, dialect, line)),
{
    let all = parts.push(r);
    assert(all[parts.len() as int] == r);
    lemma_any_holds(parts, ts, sev, dialect, line);
    lemma_any_holds(all, ts, sev, dialect, line);
    if (Rule::Any { parts: all }).holds(ts, sev, dialect, line) {
        let i = choose|i: int|
            0 <= i < all.len() && (#[trigger] all[i]).holds(ts, sev, dialect, line);
        if i < parts.len() {
            assert(parts[i] == all[i]);
            assert(parts[i].holds(ts, sev, dialect, line));
        }
    } else if (Rule::Any { parts }).holds(ts, sev, dialect, line) {
        let i = choose|i: int|
            0 <= i < parts.len() && (#[trigger] parts[i]).holds(ts, sev, dialect, line);
        assert(all[i] == parts[i]);
        assert(all[i].holds(ts, sev, dialect, line));
    } else if r.holds(ts, sev, dialect, line) {
        assert(all[parts.len() as int].holds(ts, sev, dialect, line));
    }
}

/// A record without a timestamp satisfies no time range.
pub proof fn law_untimed_outside_every_range(
    relation: TimeRelation,
    bound: i64,
    sev: u8,
    dialect: Dialect,
    line: Seq<u8>,
)
    ensures
        !(Rule::Time { relation, bound }).holds(TS_UNTIMED, sev, dialect, line),
{
}

} // verus!
