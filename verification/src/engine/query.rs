//! Queries: which records a predicate accepts.

use vstd::prelude::*;

use crate::engine::format::FieldCache;
use crate::engine::predicate;
use crate::engine::predicate::{Predicate, Rule};
use crate::engine::record::{RawRecord, RecordBytes};
use crate::engine::Engine;

verus! {

impl<'a> Engine<'a> {
    /// A rule holds of an indexed record.
    pub open spec fn accepts(self, rule: Rule, id: int) -> bool {
        rule.holds(
            self.indexes.time.ts@[id],
            self.indexes.severity.levels@[id],
            self.dialect_at(self.indexes.line.locs@[id].source_id),
            self.bytes_of(id),
        )
    }

    /// The ids below `n` of the records that a rule accepts, ascending.
    pub open spec fn hits(self, rule: Rule, n: int) -> Seq<u64>
        decreases n,
    {
        if n <= 0 {
            Seq::empty()
        } else if self.accepts(rule, n - 1) {
            self.hits(rule, n - 1).push((n - 1) as u64)
        } else {
            self.hits(rule, n - 1)
        }
    }
}

/// Scan the whole index for the records that a predicate accepts.
pub fn scan<P: Predicate>(engine: &Engine, predicate: &P) -> (r: Vec<u64>)
    requires
        engine.wf(),
    ensures
        r@ == engine.hits(predicate.rule(), engine.indexes.line.locs@.len() as int),
{
    let n: usize = engine.indexes.len();
    let mut out: Vec<u64> = Vec::new();
    let mut id: usize = 0;
    while id < n
        invariant
            engine.wf(),
            n == engine.indexes.line.locs@.len(),
            id <= n,
            out@ == engine.hits(predicate.rule(), id as int),
        decreases n - id,
    {
        let loc = engine.indexes.line.locs[id];
        let rec: RawRecord = RawRecord {
            source_id: loc.source_id,
            line_id: id as u64,
            ts_micros: engine.indexes.time.ts[id],
            severity: engine.indexes.severity.levels[id],
            bytes: RecordBytes::FileRef {
                source_id: loc.source_id,
                offset: loc.offset,
                len: loc.len,
            },
        };
        let mut cache: FieldCache = engine.cache_of(loc.source_id, engine.line_bytes(id as u64));
        if predicate.matches(&rec, &mut cache) {
            out.push(id as u64);
        }
        id = id + 1;
    }
    out
}

/// A scan gives exactly the accepted records, each once, in ascending order.
pub proof fn law_scan_is_exact(engine: Engine, rule: Rule, n: int)
    requires
        0 <= n <= u64::MAX,
    ensures
        ({
            let h = engine.hits(rule, n);
            &&& forall|i: int, j: int| 0 <= i < j < h.len() ==> #[trigger] h[i] < #[trigger] h[j]
            &&& forall|i: int| 0 <= i < h.len() ==> (#[trigger] h[i]) < n && engine.accepts(
                rule,
                h[i] as int,
            )
            &&& forall|id: int|
                0 <= id < n && #[trigger] engine.accepts(rule, id) ==> h.contains(id as u64)
        }),
    decreases n,
{
    if n > 0 {
        law_scan_is_exact(engine, rule, n - 1);
        let before = engine.hits(rule, n - 1);
        let h = engine.hits(rule, n);
        assert forall|id: int| 0 <= id < n && #[trigger] engine.accepts(rule, id) implies h.contains(
            id as u64,
        ) by {
            if id < n - 1 {
                let k = choose|k: int| 0 <= k < before.len() && before[k] == id as u64;
                assert(h[k] == id as u64);
            } else {
                assert(h[before.len() as int] == id as u64);
            }
        }
    }
}

/// A conjunction's hits are the records that each of its rules accepts.
pub proof fn law_conjunction_hits(engine: Engine, rules: Seq<Rule>, n: int, id: int)
    requires
        0 <= id < n <= u64::MAX,
    ensures
        engine.hits((Rule::All { parts: rules }), n).contains(id as u64) <==> forall|i: int|
            0 <= i < rules.len() ==> engine.accepts(#[trigger] rules[i], id),
{
    let all = Rule::All { parts: rules };
    law_scan_is_exact(engine, all, n);
    let ts = engine.indexes.time.ts@[id];
    let sev = engine.indexes.severity.levels@[id];
    let dialect = engine.dialect_at(engine.indexes.line.locs@[id].source_id);
    let line = engine.bytes_of(id);
    predicate::lemma_all_holds(rules, ts, sev, dialect, line);
    assert(engine.accepts(all, id) == all.holds(ts, sev, dialect, line));
    assert forall|i: int| 0 <= i < rules.len() implies engine.accepts(#[trigger] rules[i], id)
        == rules[i].holds(ts, sev, dialect, line) by {}
    let h = engine.hits(all, n);
    if h.contains(id as u64) {
        let k = choose|k: int| 0 <= k < h.len() && h[k] == id as u64;
        assert(engine.accepts(all, h[k] as int));
    }
}

} // verus!
