//! Sources of plain text that are read under a pattern.
//!
//! The pattern of a source is bound after its records were indexed; they are
//! then read again, as the rows of a table are once its header is known.

use vstd::prelude::*;

use crate::engine::format::{Dialect, FieldCache, LogFormat};
use crate::engine::indexes::LineLoc;
use crate::engine::parse::{ParseStats, TsOutcome};
use crate::engine::parse_regex;
use crate::engine::record::TS_UNTIMED;
use crate::engine::Engine;
use crate::pattern;
use crate::text;

verus! {

impl<'a> Engine<'a> {
    /// The regex that is bound to a source.
    pub open spec fn regex_at(self, source_id: u32) -> Option<regex::bytes::Regex> {
        if source_id < self.source_regex@.len() {
            self.source_regex@[source_id as int]
        } else {
            None
        }
    }

    /// The pattern that is bound to a source.
    pub open spec fn pattern_at(self, source_id: u32) -> Option<Seq<char>> {
        match self.regex_at(source_id) {
            Some(re) => Some(pattern::bytes_pattern(re)),
            None => None,
        }
    }

    /// How the records of a source are read.
    pub open spec fn dialect_at(self, source_id: u32) -> Dialect {
        Dialect {
            format: self.format_at(source_id),
            headers: match self.headers_at(source_id) {
                Some(h) => text::texts(h),
                None => Seq::empty(),
            },
            pattern: self.pattern_at(source_id),
        }
    }

    /// Look up the pattern of one source.
    pub fn regex_of(&self, source_id: u32) -> (r: Option<&regex::bytes::Regex>)
        ensures
            match r {
                Some(re) => self.regex_at(source_id) == Some(*re),
                None => self.regex_at(source_id) is None,
            },
    {
        if (source_id as u64) < self.source_regex.len() as u64 {
            match &self.source_regex[source_id as usize] {
                Some(re) => Some(re),
                None => None,
            }
        } else {
            None
        }
    }

    /// A field cache over a line of a source.
    pub fn cache_of<'b>(&'b self, source_id: u32, line: &'b [u8]) -> (r: FieldCache<'b>)
        ensures
            r.wf(),
            r.dialect() == self.dialect_at(source_id),
            r.line() == line@,
    {
        let cache: FieldCache<'b> = FieldCache::new(self.format_of(source_id), line);
        let cache: FieldCache<'b> = match self.headers_of(source_id) {
            Some(h) => cache.with_headers(h),
            None => cache,
        };
        match self.regex_of(source_id) {
            Some(re) => cache.with_regex(re),
            None => cache,
        }
    }

    /// A record of that source, which is read under a pattern.
    pub open spec fn is_pattern_row(self, sid: u32, id: int) -> bool {
        &&& 0 <= id < self.indexes.line.locs@.len()
        &&& self.indexes.line.locs@[id].source_id == sid
        &&& self.format_at(sid) == LogFormat::Regex
    }

    /// How many of the first `n` records are such.
    pub open spec fn pattern_rows(self, sid: u32, n: int) -> nat
        decreases n,
    {
        if n <= 0 {
            0
        } else {
            self.pattern_rows(sid, n - 1) + if self.is_pattern_row(sid, n - 1) {
                1nat
            } else {
                0
            }
        }
    }

    /// How many of the first `n` records are such and come out timed,
    /// malformed or unmatched under a pattern.
    pub open spec fn pattern_rows_with(self, sid: u32, p: Seq<char>, n: int, o: Verdict) -> nat
        decreases n,
    {
        if n <= 0 {
            0
        } else {
            self.pattern_rows_with(sid, p, n - 1, o) + if self.is_pattern_row(sid, n - 1)
                && verdict_of(parse_regex::pattern_reading(p, self.bytes_of(n - 1)).0) == o {
                1nat
            } else {
                0
            }
        }
    }

    proof fn lemma_pattern_rows_with(self, sid: u32, p: Seq<char>, n: int, o: Verdict)
        ensures
            self.pattern_rows_with(sid, p, n, o) <= self.pattern_rows(sid, n),
            n >= 0 ==> self.pattern_rows_with(sid, p, n, o) <= n,
        decreases n,
    {
        if n > 0 {
            self.lemma_pattern_rows_with(sid, p, n - 1, o);
        }
    }

    proof fn lemma_pattern_rows(self, sid: u32, a: int, b: int)
        requires
            a <= b,
        ensures
            self.pattern_rows(sid, a) <= self.pattern_rows(sid, b),
        decreases b - a,
    {
        if a < b {
            self.lemma_pattern_rows(sid, a, b - 1);
        }
    }

    /// What patterns are bound does not change which rows there are.
    proof fn lemma_same_rows(self, other: Self, sid: u32, p: Seq<char>, n: int)
        requires
            self.indexes == other.indexes,
            self.mmaps == other.mmaps,
            self.owned_lines == other.owned_lines,
            self.stream_base == other.stream_base,
            self.source_formats == other.source_formats,
        ensures
            self.pattern_rows(sid, n) == other.pattern_rows(sid, n),
            forall|o: Verdict| #[trigger]
                self.pattern_rows_with(sid, p, n, o) == other.pattern_rows_with(sid, p, n, o),
        decreases n,
    {
        if n > 0 {
            self.lemma_same_rows(other, sid, p, n - 1);
            assert(self.bytes_of(n - 1) == other.bytes_of(n - 1));
            assert forall|o: Verdict| #[trigger]
                self.pattern_rows_with(sid, p, n, o) == other.pattern_rows_with(sid, p, n, o) by {
                assert(self.pattern_rows_with(sid, p, n - 1, o) == other.pattern_rows_with(
                    sid,
                    p,
                    n - 1,
                    o,
                ));
            }
        }
    }

    /// Everything that reading a source under a pattern changes: the pattern
    /// is kept, the records of the source carry what it captures, and the
    /// counters follow.
    pub open spec fn read_under(self, sid: u32, re: regex::bytes::Regex, after: Self) -> bool {
        let n = self.indexes.line.locs@.len();
        let p = pattern::bytes_pattern(re);
        &&& after.wf()
        &&& after.indexes.line == self.indexes.line
        &&& after.mmaps == self.mmaps
        &&& after.owned_lines == self.owned_lines
        &&& after.stream_base == self.stream_base
        &&& after.source_formats == self.source_formats
        &&& after.source_headers == self.source_headers
        &&& after.schema == self.schema
        &&& after.indexes.tally() == self.indexes.tally()
        &&& forall|k: u32|
            #[trigger] after.regex_at(k) == if k == sid {
                Some(re)
            } else {
                self.regex_at(k)
            }
        &&& forall|id: int|
            0 <= id < n ==> (#[trigger] after.indexes.time.ts@[id], after.indexes.severity.levels@[id])
                == (if self.is_pattern_row(sid, id) {
                let read = parse_regex::pattern_reading(p, self.bytes_of(id));
                (read.0.micros(), read.1)
            } else {
                (self.indexes.time.ts@[id], self.indexes.severity.levels@[id])
            })
        &&& after.indexes.parse_stats.untimed == self.indexes.parse_stats.untimed
            - self.pattern_rows_with(sid, p, n as int, Verdict::Timed)
        &&& after.indexes.parse_stats.ts_parse_errors == self.indexes.parse_stats.ts_parse_errors
            + self.pattern_rows_with(sid, p, n as int, Verdict::Malformed)
        &&& after.indexes.parse_stats.json_parse_errors
            == self.indexes.parse_stats.json_parse_errors + self.pattern_rows_with(
            sid,
            p,
            n as int,
            Verdict::Unmatched,
        )
    }

    fn set_regex(&mut self, sid: u32, re: regex::bytes::Regex)
        requires
            old(self).wf(),
            sid < old(self).source_formats@.len(),
        ensures
            final(self).indexes == old(self).indexes,
            final(self).mmaps == old(self).mmaps,
            final(self).owned_lines == old(self).owned_lines,
            final(self).stream_base == old(self).stream_base,
            final(self).source_formats == old(self).source_formats,
            final(self).source_headers == old(self).source_headers,
            final(self).schema == old(self).schema,
            forall|k: u32| #[trigger]
                final(self).regex_at(k) == if k == sid {
                    Some(re)
                } else {
                    old(self).regex_at(k)
                },
    {
        while self.source_regex.len() <= sid as usize
            invariant
                self.indexes == old(self).indexes,
                self.mmaps == old(self).mmaps,
                self.owned_lines == old(self).owned_lines,
                self.stream_base == old(self).stream_base,
                self.source_formats == old(self).source_formats,
                self.source_headers == old(self).source_headers,
                self.schema == old(self).schema,
                sid < self.source_formats@.len(),
                forall|k: u32| #[trigger] self.regex_at(k) == old(self).regex_at(k),
            decreases sid + 1 - self.source_regex@.len(),
        {
            let ghost before = *self;
            self.source_regex.push(None);
            assert forall|k: u32| #[trigger] self.regex_at(k) == old(self).regex_at(k) by {
                assert(before.regex_at(k) == old(self).regex_at(k));
            }
        }
        let ghost before = *self;
        self.source_regex.set(sid as usize, Some(re));
        assert forall|k: u32| k != sid implies #[trigger] self.regex_at(k) == old(self).regex_at(
            k,
        ) by {
            assert(before.regex_at(k) == old(self).regex_at(k));
        }
    }

    /// Read every record of a source of plain text under the source's pattern.
    fn recompute_regex_ts_level(&mut self, sid: u32)
        requires
            old(self).wf(),
            old(self).regex_at(sid) is Some,
            old(self).indexes.parse_stats.untimed >= old(self).pattern_rows(
                sid,
                old(self).indexes.line.locs@.len() as int,
            ),
            old(self).indexes.parse_stats.ts_parse_errors + old(self).indexes.line.locs@.len()
                <= u64::MAX,
            old(self).indexes.parse_stats.json_parse_errors + old(self).indexes.line.locs@.len()
                <= u64::MAX,
        ensures
            old(self).read_under(sid, old(self).regex_at(sid)->0, *final(self)),
    {
        let ghost start = *self;
        let ghost p = pattern::bytes_pattern(start.regex_at(sid)->0);
        let n: usize = self.indexes.line.locs.len();
        let mut id: usize = 0;
        while id < n
            invariant
                start == *old(self),
                start.wf(),
                start.regex_at(sid) is Some,
                p == pattern::bytes_pattern(start.regex_at(sid)->0),
                n == start.indexes.line.locs@.len(),
                id <= n,
                self.indexes.wf(),
                self.indexes.line == start.indexes.line,
                self.mmaps == start.mmaps,
                self.owned_lines == start.owned_lines,
                self.stream_base == start.stream_base,
                self.source_formats == start.source_formats,
                self.source_headers == start.source_headers,
                self.source_regex == start.source_regex,
                self.schema == start.schema,
                self.indexes.tally() == start.indexes.tally(),
                forall|k: int|
                    0 <= k < n ==> (
                    #[trigger] self.indexes.time.ts@[k], self.indexes.severity.levels@[k]) == (
                    if k < id && start.is_pattern_row(sid, k) {
                        let read = parse_regex::pattern_reading(p, start.bytes_of(k));
                        (read.0.micros(), read.1)
                    } else {
                        (start.indexes.time.ts@[k], start.indexes.severity.levels@[k])
                    }),
                self.indexes.parse_stats.untimed == start.indexes.parse_stats.untimed
                    - start.pattern_rows_with(sid, p, id as int, Verdict::Timed),
                self.indexes.parse_stats.ts_parse_errors
                    == start.indexes.parse_stats.ts_parse_errors + start.pattern_rows_with(
                    sid,
                    p,
                    id as int,
                    Verdict::Malformed,
                ),
                self.indexes.parse_stats.json_parse_errors
                    == start.indexes.parse_stats.json_parse_errors + start.pattern_rows_with(
                    sid,
                    p,
                    id as int,
                    Verdict::Unmatched,
                ),
                start.indexes.parse_stats.untimed >= start.pattern_rows(sid, n as int),
                start.indexes.parse_stats.ts_parse_errors + n <= u64::MAX,
                start.indexes.parse_stats.json_parse_errors + n <= u64::MAX,
            decreases n - id,
        {
            let loc: LineLoc = self.indexes.line.locs[id];
            proof {
                start.lemma_pattern_rows_with(sid, p, id as int, Verdict::Timed);
                start.lemma_pattern_rows_with(sid, p, id as int, Verdict::Malformed);
                start.lemma_pattern_rows_with(sid, p, id as int, Verdict::Unmatched);
                start.lemma_pattern_rows(sid, id + 1, n as int);
                assert(self.regex_at(sid) == start.regex_at(sid));
                assert(self.bytes_of(id as int) == start.bytes_of(id as int));
            }
            if loc.source_id == sid && self.format_of(sid) == LogFormat::Regex {
                assert(start.is_pattern_row(sid, id as int));
                let mut stats: ParseStats = ParseStats::default();
                let read: Option<(i64, u8)> = match self.regex_of(sid) {
                    Some(re) => Some(
                        parse_regex::ts_and_level(
                            self.line_bytes(id as u64),
                            re,
                            &mut stats,
                            None,
                        ),
                    ),
                    None => None,
                };
                match read {
                    Some((ts, sev)) => {
                        self.indexes.time.ts.set(id, ts);
                        self.indexes.severity.levels.set(id, sev);
                        self.indexes.parse_stats.untimed = self.indexes.parse_stats.untimed - 1
                            + stats.untimed;
                        self.indexes.parse_stats.ts_parse_errors =
                        self.indexes.parse_stats.ts_parse_errors + stats.ts_parse_errors;
                        self.indexes.parse_stats.json_parse_errors =
                        self.indexes.parse_stats.json_parse_errors + stats.json_parse_errors;
                    },
                    None => {},
                }
            }
            id = id + 1;
        }
        assert forall|k: u32| #[trigger] self.regex_at(k) == start.regex_at(k) by {}
    }

    /// Read the records of a source of plain text under a pattern, and keep
    /// the pattern for field lookups. Call once, after the source's records
    /// are in.
    ///
    /// Every record of the source must have been counted as untimed before.
    pub fn bind_pattern(&mut self, source_id: u32, pattern: regex::bytes::Regex)
        requires
            old(self).wf(),
            source_id < old(self).source_formats@.len(),
            old(self).indexes.parse_stats.untimed >= old(self).pattern_rows(
                source_id,
                old(self).indexes.line.locs@.len() as int,
            ),
            old(self).indexes.parse_stats.ts_parse_errors + old(self).indexes.line.locs@.len()
                <= u64::MAX,
            old(self).indexes.parse_stats.json_parse_errors + old(self).indexes.line.locs@.len()
                <= u64::MAX,
        ensures
            old(self).read_under(source_id, pattern, *final(self)),
    {
        let ghost start = *self;
        let ghost p = pattern::bytes_pattern(pattern);
        self.set_regex(source_id, pattern);
        let ghost bound = *self;
        proof {
            start.lemma_same_rows(bound, source_id, p, start.indexes.line.locs@.len() as int);
        }
        self.recompute_regex_ts_level(source_id);
        proof {
            assert forall|id: int| start.bytes_of(id) == #[trigger] bound.bytes_of(id) by {}
            assert forall|k: u32| #[trigger]
                self.regex_at(k) == if k == source_id {
                    Some(pattern)
                } else {
                    start.regex_at(k)
                } by {
                assert(bound.regex_at(k) == if k == source_id {
                    Some(pattern)
                } else {
                    start.regex_at(k)
                });
            }
        }
    }
}

/// What a line comes to under a pattern, as far as the counters go.
pub enum Verdict {
    Timed,
    Missing,
    Malformed,
    Unmatched,
}

/// The verdict of an outcome.
pub open spec fn verdict_of(o: TsOutcome) -> Verdict {
    match o {
        TsOutcome::Timed(_) => Verdict::Timed,
        TsOutcome::Missing => Verdict::Missing,
        TsOutcome::Malformed => Verdict::Malformed,
        TsOutcome::Unparsed => Verdict::Unmatched,
    }
}

/// Binding a pattern to a source of plain text gives each of its records what
/// the pattern captures in it. All other records stay as they were, and so do
/// the patterns of other sources.
pub proof fn law_records_are_read_by_their_pattern(
    before: Engine,
    sid: u32,
    re: regex::bytes::Regex,
    after: Engine,
    id: int,
    other: u32,
)
    requires
        before.read_under(sid, re, after),
        0 <= id < before.indexes.line.locs@.len(),
    ensures
        ({
            let read = parse_regex::pattern_reading(
                pattern::bytes_pattern(re),
                before.bytes_of(id),
            );
            if before.indexes.line.locs@[id].source_id == sid && before.format_at(sid)
                == LogFormat::Regex {
                &&& after.indexes.time.ts@[id] == match read.0 {
                    TsOutcome::Timed(t) => t,
                    _ => TS_UNTIMED,
                }
                &&& after.indexes.severity.levels@[id] == read.1
            } else {
                &&& after.indexes.time.ts@[id] == before.indexes.time.ts@[id]
                &&& after.indexes.severity.levels@[id] == before.indexes.severity.levels@[id]
            }
        }),
        after.bytes_of(id) == before.bytes_of(id),
        after.pattern_at(sid) == Some(pattern::bytes_pattern(re)),
        other != sid ==> after.pattern_at(other) == before.pattern_at(other),
{
    let seen = (after.indexes.time.ts@[id], after.indexes.severity.levels@[id]);
    assert(seen.0 == after.indexes.time.ts@[id]);
    let read = parse_regex::pattern_reading(pattern::bytes_pattern(re), before.bytes_of(id));
    assert(seen == (if before.is_pattern_row(sid, id) {
        (read.0.micros(), read.1)
    } else {
        (before.indexes.time.ts@[id], before.indexes.severity.levels@[id])
    }));
    assert(after.regex_at(other) == if other == sid {
        Some(re)
    } else {
        before.regex_at(other)
    });
    assert(after.regex_at(sid) == Some(re));
}

} // verus!
