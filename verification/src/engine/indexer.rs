//! Indexer: drains a producer into the engine's parallel arrays.

use vstd::prelude::*;

use crate::engine::indexes::{LineIndex, SeverityIndex, TimeIndex};
use crate::engine::parse;
use crate::engine;
use crate::engine::parse::ParseStats;
use crate::engine::record::{Payload, RecordView};
use crate::engine::Engine;
use crate::io::RecordProducer;

verus! {

/// Three parallel arrays grown together. `line[i]`, `time[i]`, `severity[i]`
/// always refer to the same record.
#[derive(Debug)]
pub struct Indexes {
    pub line: LineIndex,
    pub time: TimeIndex,
    pub severity: SeverityIndex,
    /// Records that had to fall back to the untimed bucket.
    pub untimed_on_file: u64,
    /// Records whose timestamp is there and does not parse.
    pub ts_parse_errors: u64,
    /// Records that failed the JSON pre-pass entirely. They are still indexed,
    /// with unknown severity and in the untimed bucket.
    pub json_parse_errors: u64,
    /// Outcomes that the producers counted.
    pub parse_stats: ParseStats,
}

impl Default for Indexes {
    fn default() -> (r: Self)
        ensures
            r.wf(),
            r.line.locs@.len() == 0,
            r.tally() == (ParseStats { untimed: 0, ts_parse_errors: 0, json_parse_errors: 0 }),
            r.parse_stats == (ParseStats { untimed: 0, ts_parse_errors: 0, json_parse_errors: 0 }),
    {
        Indexes {
            line: LineIndex::default(),
            time: TimeIndex::default(),
            severity: SeverityIndex::default(),
            untimed_on_file: 0,
            ts_parse_errors: 0,
            json_parse_errors: 0,
            parse_stats: ParseStats::default(),
        }
    }
}

impl Indexes {
    /// The arrays are in lockstep.
    pub open spec fn wf(self) -> bool {
        self.line.locs@.len() == self.time.ts@.len() && self.line.locs@.len()
            == self.severity.levels@.len()
    }

    /// The counters of the JSON pre-pass.
    pub open spec fn tally(self) -> ParseStats {
        ParseStats {
            untimed: self.untimed_on_file,
            ts_parse_errors: self.ts_parse_errors,
            json_parse_errors: self.json_parse_errors,
        }
    }

    pub fn len(&self) -> (r: usize)
        ensures
            r == self.line.locs@.len(),
    {
        self.line.len()
    }

    pub fn is_empty(&self) -> (r: bool)
        ensures
            r == (self.line.locs@.len() == 0),
    {
        self.line.is_empty()
    }
}

/// Timestamp and severity of an NDJSON line, counted in the indexes' own
/// counters.
pub fn parse_ts_level(bytes: &[u8], out: &mut Indexes) -> (r: (i64, u8))
    requires
        old(out).tally().has_room(),
    ensures
        r.0 == parse::ndjson_reading(bytes@, None).0.micros(),
        r.1 == parse::ndjson_reading(bytes@, None).1,
        final(out).tally() == old(out).tally().counting(parse::ndjson_reading(bytes@, None).0),
        final(out).line == old(out).line,
        final(out).time == old(out).time,
        final(out).severity == old(out).severity,
        final(out).parse_stats == old(out).parse_stats,
{
    let mut stats: ParseStats = ParseStats {
        untimed: out.untimed_on_file,
        ts_parse_errors: out.ts_parse_errors,
        json_parse_errors: out.json_parse_errors,
    };
    let r: (i64, u8) = parse::ts_and_level(bytes, &mut stats);
    out.untimed_on_file = stats.untimed;
    out.ts_parse_errors = stats.ts_parse_errors;
    out.json_parse_errors = stats.json_parse_errors;
    r
}

/// The records can be ingested one after the other: owned bytes, once they
/// start, are not interrupted.
pub open spec fn can_drain(engine: Engine, recs: Seq<RecordView>) -> bool {
    &&& forall|i: int, j: int|
        0 <= i < j < recs.len() && !((#[trigger] recs[i]).bytes is FileRef) ==> !((
        #[trigger] recs[j]).bytes is FileRef)
    &&& (engine.stream_base is Some ==> (forall|i: int|
        0 <= i < recs.len() ==> (#[trigger] recs[i]).bytes is FileRef) || (engine.can_own_next()
        && forall|i: int| 0 <= i < recs.len() ==> !((#[trigger] recs[i]).bytes is FileRef)))
}

/// Everything that a run of records adds, and nothing else.
pub open spec fn drained(before: Engine, recs: Seq<RecordView>, after: Engine) -> bool {
    let n = before.indexes.line.locs@.len();
    &&& after.wf()
    &&& after.indexes.line.locs@ == before.indexes.line.locs@ + Seq::new(
        recs.len(),
        |i: int| engine::payload_loc(before.mmaps@, recs[i]),
    )
    &&& after.indexes.time.ts@ == before.indexes.time.ts@ + Seq::new(
        recs.len(),
        |i: int| recs[i].ts_micros,
    )
    &&& after.indexes.severity.levels@ == before.indexes.severity.levels@ + Seq::new(
        recs.len(),
        |i: int| recs[i].severity,
    )
    &&& after.indexes.tally() == before.indexes.tally()
    &&& after.indexes.parse_stats == before.indexes.parse_stats
    &&& after.mmaps == before.mmaps
    &&& after.source_formats == before.source_formats
    &&& after.source_headers == before.source_headers
    &&& after.source_regex == before.source_regex
    &&& after.schema == before.schema
    &&& forall|id: int| 0 <= id < n ==> #[trigger] after.bytes_of(id) == before.bytes_of(id)
    &&& forall|i: int|
        0 <= i < recs.len() ==> after.bytes_of(n + i) == engine::payload_bytes(
            before.mmaps@,
            (#[trigger] recs[i]).bytes,
        )
}

/// Nothing to drain changes nothing.
proof fn lemma_drained_none(e: Engine)
    requires
        e.wf(),
    ensures
        drained(e, Seq::empty(), e),
{
    let none = Seq::<RecordView>::empty();
    assert(e.indexes.line.locs@ + Seq::new(
        none.len(),
        |i: int| engine::payload_loc(e.mmaps@, none[i]),
    ) =~= e.indexes.line.locs@);
    assert(e.indexes.time.ts@ + Seq::new(none.len(), |i: int| none[i].ts_micros)
        =~= e.indexes.time.ts@);
    assert(e.indexes.severity.levels@ + Seq::new(none.len(), |i: int| none[i].severity)
        =~= e.indexes.severity.levels@);
}

/// One more record extends what was drained.
proof fn lemma_drained_step<'a>(
    before: Engine<'a>,
    recs: Seq<RecordView>,
    mid: Engine<'a>,
    rec: RecordView,
    after: Engine<'a>,
)
    requires
        drained(before, recs, mid),
        mid.ingested(rec, after),
    ensures
        drained(before, recs.push(rec), after),
{
    let all = recs.push(rec);
    assert(after.indexes.line.locs@ =~= before.indexes.line.locs@ + Seq::new(
        all.len(),
        |i: int| engine::payload_loc(before.mmaps@, all[i]),
    ));
    assert(after.indexes.time.ts@ =~= before.indexes.time.ts@ + Seq::new(
        all.len(),
        |i: int| all[i].ts_micros,
    ));
    assert(after.indexes.severity.levels@ =~= before.indexes.severity.levels@ + Seq::new(
        all.len(),
        |i: int| all[i].severity,
    ));
    let n = before.indexes.line.locs@.len();
    assert forall|id: int| 0 <= id < n implies #[trigger] after.bytes_of(id) == before.bytes_of(
        id,
    ) by {
        assert(mid.bytes_of(id) == before.bytes_of(id));
    }
    assert forall|i: int| 0 <= i < all.len() implies after.bytes_of(n + i)
        == engine::payload_bytes(before.mmaps@, (#[trigger] all[i]).bytes) by {
        if i < recs.len() {
            assert(mid.bytes_of(n + i) == engine::payload_bytes(before.mmaps@, recs[i].bytes));
        }
    }
}

/// Drain a producer into the engine: every record that it has yet to give is
/// ingested, in order, with the timestamp and severity it carries.
pub fn drain<'a, P: RecordProducer>(producer: &mut P, engine: &mut Engine<'a>)
    requires
        old(producer).wf(),
        old(engine).wf(),
        can_drain(*old(engine), old(producer).remaining()),
    ensures
        final(producer).wf(),
        final(producer).remaining().len() == 0,
        drained(*old(engine), old(producer).remaining(), *final(engine)),
{
    let ghost start = *engine;
    let ghost all = producer.remaining();
    let ghost mut done: Seq<RecordView> = Seq::empty();
    proof {
        lemma_drained_none(start);
        assert(done + producer.remaining() =~= all);
    }
    loop
        invariant
            producer.wf(),
            engine.wf(),
            can_drain(start, all),
            all == done + producer.remaining(),
            drained(start, done, *engine),
            (forall|i: int| 0 <= i < done.len() ==> (#[trigger] done[i]).bytes is FileRef)
                ==> engine.stream_base == start.stream_base && engine.owned_lines
                == start.owned_lines,
            (exists|i: int| 0 <= i < done.len() && !((#[trigger] done[i]).bytes is FileRef))
                ==> engine.can_own_next(),
            start == *old(engine),
            all == old(producer).remaining(),
            start.wf(),
        ensures
            producer.wf(),
            producer.remaining().len() == 0,
            done == all,
            drained(start, done, *engine),
        decreases producer.remaining().len(),
    {
        let ghost left = producer.remaining();
        match producer.next() {
            None => {
                assert(done =~= all);
                break;
            },
            Some(rec) => {
                let ghost mid = *engine;
                let ghost at = done.len() as int;
                proof {
                    assert(all[at] == rec@);
                    assert(rec@.bytes is FileRef <==> rec.bytes is FileRef);
                    if !(rec.bytes is FileRef) {
                        if exists|i: int| 0 <= i < done.len() && !((#[trigger] done[i]).bytes is FileRef) {
                        } else {
                            assert(engine.stream_base == start.stream_base);
                            if start.stream_base is Some {
                                assert(!(forall|i: int|
                                    0 <= i < all.len() ==> (#[trigger] all[i]).bytes is FileRef));
                                if done.len() > 0 {
                                    assert(all[0] == done[0]);
                                }
                                assert(start.indexes.line.locs@ =~= engine.indexes.line.locs@);
                            }
                        }
                    }
                }
                let _id: u64 = engine.ingest_one(rec);
                proof {
                    lemma_drained_step(start, done, mid, rec@, *engine);
                    let grown = done.push(rec@);
                    assert(all =~= grown + producer.remaining());
                    if forall|i: int| 0 <= i < grown.len() ==> (#[trigger] grown[i]).bytes is FileRef {
                        assert(grown[at].bytes is FileRef);
                        assert forall|i: int| 0 <= i < done.len() implies (
                        #[trigger] done[i]).bytes is FileRef by {
                            assert(grown[i].bytes is FileRef);
                        }
                    }
                    if exists|i: int| 0 <= i < grown.len() && !((#[trigger] grown[i]).bytes is FileRef) {
                        let i = choose|i: int|
                            0 <= i < grown.len() && !((#[trigger] grown[i]).bytes is FileRef);
                        if i < at {
                            assert(!(all[i].bytes is FileRef));
                            assert(!(all[at].bytes is FileRef));
                        }
                    }
                    done = grown;
                }
            },
        }
    }
}

/// The records of a run are appended in their order, each with its own
/// timestamp, level and bytes.
pub proof fn law_records_keep_their_order(
    before: Engine,
    recs: Seq<RecordView>,
    after: Engine,
    i: int,
)
    requires
        before.wf(),
        drained(before, recs, after),
        0 <= i < recs.len(),
    ensures
        ({
            let n = before.indexes.line.locs@.len();
            &&& after.indexes.line.locs@.len() == n + recs.len()
            &&& after.indexes.time.ts@[n + i] == recs[i].ts_micros
            &&& after.indexes.severity.levels@[n + i] == recs[i].severity
            &&& recs[i].bytes matches Payload::Owned(b) ==> after.bytes_of(n + i) == b
                && after.indexes.line.locs@[n + i].source_id == recs[i].source_id
            &&& after.indexes.time.ts@.take(n as int) == before.indexes.time.ts@
            &&& after.indexes.severity.levels@.take(n as int) == before.indexes.severity.levels@
            &&& after.indexes.line.locs@.take(n as int) == before.indexes.line.locs@
        }),
{
    let n = before.indexes.line.locs@.len();
    assert(after.bytes_of(n + i) == engine::payload_bytes(before.mmaps@, recs[i].bytes));
    assert(after.indexes.time.ts@.take(n as int) =~= before.indexes.time.ts@);
    assert(after.indexes.severity.levels@.take(n as int) =~= before.indexes.severity.levels@);
    assert(after.indexes.line.locs@.take(n as int) =~= before.indexes.line.locs@);
}

} // verus!
