//! Engine layer: ingest, indexes, queries, histogram.

pub mod clauses;
pub mod dsl;
pub mod format;
pub mod histogram;
pub mod indexer;
pub mod indexes;
pub mod parse;
pub mod parse_access;
pub mod parse_csv;
pub mod parse_edn;
pub mod parse_journalctl;
pub mod parse_logback;
pub mod parse_logfmt;
pub mod parse_python;
pub mod parse_regex;
pub mod parse_syslog;
pub mod patterned;
pub mod precedence;
pub mod predicate;
pub mod query;
pub mod quoted;
pub mod record;
pub mod stats;

use vstd::prelude::*;

use crate::engine::format::LogFormat;
use crate::engine::indexer::Indexes;
use crate::engine::indexes::LineLoc;
use crate::engine::parse::{ParseStats, TsOutcome};
use crate::engine::parse_csv::Delim;
use crate::engine::record::{severity, Payload, RawRecord, RecordBytes, RecordView, TS_UNTIMED};
use crate::scan;
use crate::schema;
use crate::schema::{LockedSchema, SchemaBuilder, FILE_WARMUP_LINES};
use crate::string_map;
use crate::text;

verus! {

/// Owns the indexed data plus the sources needed to resolve bytes by
/// `line_id`.
pub struct Engine<'a> {
    pub indexes: Indexes,
    /// `mmaps[source_id]` holds the bytes that a file record's span refers to.
    pub mmaps: Vec<&'a [u8]>,
    /// Owned record bytes, indexed by `line_id - stream_base`. Empty for
    /// pure-file pipelines.
    pub owned_lines: Vec<Vec<u8>>,
    /// First `line_id` with owned bytes. Set at the first owned record and
    /// never changed.
    pub stream_base: Option<u64>,
    /// Format per source.
    pub source_formats: Vec<LogFormat>,
    /// Column headers per CSV/TSV source.
    pub source_headers: Vec<Option<Vec<String>>>,
    /// Pattern per source of plain text.
    pub source_regex: Vec<Option<regex::bytes::Regex>>,
    /// Frozen-after-warmup schema. `None` until `scan_schema` runs.
    pub schema: Option<LockedSchema>,
}

/// The bytes of a span of a source; empty when it is out of range.
pub open spec fn span_bytes(sources: Seq<&[u8]>, source_id: u32, offset: u64, len: u32) -> Seq<u8> {
    if source_id < sources.len() && offset + len <= sources[source_id as int]@.len() {
        sources[source_id as int]@.subrange(offset as int, offset + len)
    } else {
        Seq::empty()
    }
}

/// Spans of one source joined, each that is in range followed by a newline.
pub open spec fn joined_spans(sources: Seq<&[u8]>, source_id: u32, spans: Seq<(u64, u32)>) -> Seq<u8>
    decreases spans.len(),
{
    if spans.len() == 0 || source_id >= sources.len() {
        Seq::empty()
    } else {
        let before = joined_spans(sources, source_id, spans.drop_last());
        let (offset, len) = spans.last();
        if offset + len <= sources[source_id as int]@.len() {
            before + span_bytes(sources, source_id, offset, len).push('\n' as u8)
        } else {
            before
        }
    }
}

/// The bytes that a record stands for.
pub open spec fn payload_bytes(sources: Seq<&[u8]>, p: Payload) -> Seq<u8> {
    match p {
        Payload::Owned(b) => b,
        Payload::FileRef { source_id, offset, len } => span_bytes(sources, source_id, offset, len),
        Payload::FileRefMulti { source_id, spans } => joined_spans(sources, source_id, spans),
    }
}

/// Where a record is indexed.
pub open spec fn payload_loc(sources: Seq<&[u8]>, rec: RecordView) -> LineLoc {
    match rec.bytes {
        Payload::Owned(b) => LineLoc { source_id: rec.source_id, offset: 0, len: b.len() as u32 },
        Payload::FileRef { source_id, offset, len } => LineLoc { source_id, offset, len },
        Payload::FileRefMulti { source_id, spans } => LineLoc {
            source_id,
            offset: 0,
            len: joined_spans(sources, source_id, spans).len() as u32,
        },
    }
}

/// Index of the first record of a source, at or after `i`.
pub open spec fn first_of_source(locs: Seq<LineLoc>, sid: int, i: int) -> Option<int>
    decreases locs.len() - i,
{
    if !(0 <= i < locs.len()) {
        None
    } else if locs[i].source_id == sid {
        Some(i)
    } else {
        first_of_source(locs, sid, i + 1)
    }
}

impl<'a> Engine<'a> {
    /// The arrays are in lockstep, and owned bytes belong to indexed records.
    pub open spec fn wf(self) -> bool {
        &&& self.indexes.wf()
        &&& match self.stream_base {
            Some(b) => b + self.owned_lines@.len() <= self.indexes.line.locs@.len(),
            None => self.owned_lines@.len() == 0,
        }
    }

    /// The bytes of a record; empty when there is none.
    pub open spec fn bytes_of(self, line_id: int) -> Seq<u8> {
        let locs = self.indexes.line.locs@;
        if !(0 <= line_id < locs.len()) {
            Seq::empty()
        } else if self.stream_base is Some && self.stream_base->0 <= line_id
            < self.stream_base->0 + self.owned_lines@.len() {
            self.owned_lines@[line_id - self.stream_base->0]@
        } else {
            let loc = locs[line_id];
            span_bytes(self.mmaps@, loc.source_id, loc.offset, loc.len)
        }
    }

    /// Owned bytes can be stored for the record that comes next.
    pub open spec fn can_own_next(self) -> bool {
        match self.stream_base {
            Some(b) => b + self.owned_lines@.len() == self.indexes.line.locs@.len(),
            None => self.owned_lines@.len() == 0,
        }
    }

    pub fn new() -> (r: Self)
        ensures
            r.wf(),
            r.indexes.line.locs@.len() == 0,
            r.indexes.tally() == (ParseStats {
                untimed: 0,
                ts_parse_errors: 0,
                json_parse_errors: 0,
            }),
            r.indexes.parse_stats == (ParseStats {
                untimed: 0,
                ts_parse_errors: 0,
                json_parse_errors: 0,
            }),
            r.mmaps@.len() == 0,
            r.owned_lines@.len() == 0,
            r.stream_base is None,
            r.source_formats@.len() == 0,
            r.source_headers@.len() == 0,
            r.source_regex@.len() == 0,
            r.schema is None,
    {
        Engine {
            indexes: Indexes::default(),
            mmaps: Vec::new(),
            owned_lines: Vec::new(),
            stream_base: None,
            source_formats: Vec::new(),
            source_headers: Vec::new(),
            source_regex: Vec::new(),
            schema: None,
        }
    }

    /// The format of one source: NDJSON where none is recorded.
    pub open spec fn format_at(self, source_id: u32) -> LogFormat {
        if source_id < self.source_formats@.len() {
            self.source_formats@[source_id as int]
        } else {
            LogFormat::Ndjson
        }
    }

    pub fn format_of(&self, source_id: u32) -> (r: LogFormat)
        ensures
            r == self.format_at(source_id),
    {
        if (source_id as u64) < self.source_formats.len() as u64 {
            self.source_formats[source_id as usize]
        } else {
            LogFormat::Ndjson
        }
    }

    /// The captured column headers of one source.
    pub open spec fn headers_at(self, source_id: u32) -> Option<Seq<String>> {
        if source_id < self.source_headers@.len() {
            match self.source_headers@[source_id as int] {
                Some(h) => Some(h@),
                None => None,
            }
        } else {
            None
        }
    }

    /// Look up the captured column headers for one source.
    pub fn headers_of(&self, source_id: u32) -> (r: Option<&[String]>)
        ensures
            match r {
                Some(h) => self.headers_at(source_id) == Some(h@),
                None => self.headers_at(source_id) is None,
            },
    {
        if (source_id as u64) < self.source_headers.len() as u64 {
            match &self.source_headers[source_id as usize] {
                Some(h) => Some(h.as_slice()),
                None => None,
            }
        } else {
            None
        }
    }

    fn span(&self, source_id: u32, offset: u64, len: u32) -> (r: Option<&'a [u8]>)
        ensures
            match r {
                Some(b) => source_id < self.mmaps@.len() && offset + len
                    <= self.mmaps@[source_id as int]@.len() && b@ == span_bytes(
                    self.mmaps@,
                    source_id,
                    offset,
                    len,
                ),
                None => !(source_id < self.mmaps@.len() && offset + len
                    <= self.mmaps@[source_id as int]@.len()),
            },
    {
        if source_id as u64 >= self.mmaps.len() as u64 {
            return None;
        }
        let source: &'a [u8] = self.mmaps[source_id as usize];
        let total: u64 = source.len() as u64;
        if offset > total || len as u64 > total - offset {
            return None;
        }
        let start: usize = offset as usize;
        Some(&source[start..start + len as usize])
    }

    /// Resolve a single line's bytes. Empty if the `line_id` is out of range.
    pub fn line_bytes(&self, line_id: u64) -> (r: &[u8])
        requires
            self.wf(),
        ensures
            r@ == self.bytes_of(line_id as int),
    {
        let none: &[u8] = &[];
        assert(none@ =~= Seq::empty());
        let loc: &LineLoc = match self.indexes.line.get(line_id) {
            Some(l) => l,
            None => {
                return none;
            },
        };
        match self.stream_base {
            Some(base) => {
                if line_id >= base && line_id - base < self.owned_lines.len() as u64 {
                    return self.owned_lines[(line_id - base) as usize].as_slice();
                }
            },
            None => {},
        }
        match self.span(loc.source_id, loc.offset, loc.len) {
            Some(b) => b,
            None => none,
        }
    }

    /// Push owned bytes into dense storage. The first call fixes the base;
    /// later ones must follow on without a gap.
    pub fn push_owned(&mut self, line_id: u64, bytes: Vec<u8>)
        requires
            match old(self).stream_base {
                Some(b) => line_id == b + old(self).owned_lines@.len(),
                None => old(self).owned_lines@.len() == 0,
            },
        ensures
            final(self).stream_base == (match old(self).stream_base {
                Some(b) => Some(b),
                None => Some(line_id),
            }),
            final(self).owned_lines@ == old(self).owned_lines@.push(bytes),
            final(self).indexes == old(self).indexes,
            final(self).mmaps == old(self).mmaps,
            final(self).source_formats == old(self).source_formats,
            final(self).source_headers == old(self).source_headers,
            final(self).source_regex == old(self).source_regex,
            final(self).schema == old(self).schema,
    {
        if self.stream_base.is_none() {
            self.stream_base = Some(line_id);
        }
        self.owned_lines.push(bytes);
    }

    fn join(&self, source_id: u32, spans: &Vec<(u64, u32)>) -> (r: Vec<u8>)
        ensures
            r@ == joined_spans(self.mmaps@, source_id, spans@),
    {
        let mut joined: Vec<u8> = Vec::new();
        if source_id as u64 >= self.mmaps.len() as u64 {
            return joined;
        }
        let mut i: usize = 0;
        assert(spans@.take(0) =~= Seq::empty());
        while i < spans.len()
            invariant
                i <= spans@.len(),
                source_id < self.mmaps@.len(),
                joined@ == joined_spans(self.mmaps@, source_id, spans@.take(i as int)),
            decreases spans@.len() - i,
        {
            assert(spans@.take(i + 1).drop_last() =~= spans@.take(i as int));
            let (offset, len) = spans[i];
            let ghost before = joined@;
            match self.span(source_id, offset, len) {
                Some(b) => {
                    scan::append(&mut joined, b);
                    joined.push('\n' as u8);
                    assert(joined@ =~= before + b@.push('\n' as u8));
                },
                None => {},
            }
            i = i + 1;
        }
        assert(spans@.take(spans@.len() as int) =~= spans@);
        joined
    }

    /// Everything that one more record adds, and nothing else.
    pub open spec fn ingested(self, rec: RecordView, after: Self) -> bool {
        let n = self.indexes.line.locs@.len();
        &&& after.wf()
        &&& after.indexes.line.locs@ == self.indexes.line.locs@.push(payload_loc(self.mmaps@, rec))
        &&& after.indexes.time.ts@ == self.indexes.time.ts@.push(rec.ts_micros)
        &&& after.indexes.severity.levels@ == self.indexes.severity.levels@.push(rec.severity)
        &&& after.indexes.tally() == self.indexes.tally()
        &&& after.indexes.parse_stats == self.indexes.parse_stats
        &&& after.mmaps == self.mmaps
        &&& after.source_formats == self.source_formats
        &&& after.source_headers == self.source_headers
        &&& after.source_regex == self.source_regex
        &&& after.schema == self.schema
        &&& after.bytes_of(n as int) == payload_bytes(self.mmaps@, rec.bytes)
        &&& forall|id: int| 0 <= id < n ==> #[trigger] after.bytes_of(id) == self.bytes_of(id)
    }

    /// Ingest one record. Returns its new `line_id`.
    ///
    /// Owned records must follow on each other without a file record in
    /// between once the first has arrived.
    pub fn ingest_one(&mut self, rec: RawRecord) -> (r: u64)
        requires
            old(self).wf(),
            rec.bytes is FileRef || old(self).can_own_next(),
        ensures
            r == old(self).indexes.line.locs@.len(),
            old(self).ingested(rec@, *final(self)),
            rec.bytes is FileRef ==> final(self).stream_base == old(self).stream_base
                && final(self).owned_lines == old(self).owned_lines,
            !(rec.bytes is FileRef) ==> final(self).can_own_next(),
    {
        let line_id: u64 = self.indexes.line.locs.len() as u64;
        match rec.bytes {
            RecordBytes::FileRef { source_id, offset, len } => {
                self.indexes.line.locs.push(LineLoc { source_id, offset, len });
            },
            RecordBytes::Owned(b) => {
                let len: u32 = #[verifier::truncate] (b.len() as u32);
                self.indexes.line.locs.push(LineLoc { source_id: rec.source_id, offset: 0, len });
                self.push_owned(line_id, b);
            },
            RecordBytes::FileRefMulti { source_id, spans } => {
                let joined: Vec<u8> = self.join(source_id, &spans);
                let len: u32 = #[verifier::truncate] (joined.len() as u32);
                self.indexes.line.locs.push(LineLoc { source_id, offset: 0, len });
                self.push_owned(line_id, joined);
            },
        }
        self.indexes.time.ts.push(rec.ts_micros);
        self.indexes.severity.levels.push(rec.severity);
        line_id
    }
}

/// The tabular delimiter of a source's format.
pub open spec fn source_delim(formats: Seq<LogFormat>, sid: int) -> Option<Delim> {
    if 0 <= sid < formats.len() {
        format::delim_of(formats[sid])
    } else {
        None
    }
}

impl<'a> Engine<'a> {
    /// The header of a CSV/TSV source: the fields of its first record.
    pub open spec fn header_row(self, sid: int) -> Option<Seq<Seq<char>>> {
        match source_delim(self.source_formats@, sid) {
            Some(d) => match first_of_source(self.indexes.line.locs@, sid, 0) {
                Some(id) => Some(parse_csv::row(self.bytes_of(id), d.as_byte())),
                None => None,
            },
            None => None,
        }
    }

    /// A record that is read again once its source's header is known: a data
    /// row of a CSV/TSV source whose header was captured.
    pub open spec fn is_data_row(self, id: int) -> bool {
        let loc = self.indexes.line.locs@[id];
        &&& 0 <= id < self.indexes.line.locs@.len()
        &&& source_delim(self.source_formats@, loc.source_id as int) is Some
        &&& first_of_source(self.indexes.line.locs@, loc.source_id as int, 0) != Some(id)
        &&& self.headers_at(loc.source_id) is Some
    }

    /// What a data row says under its header.
    pub open spec fn row_reading(self, id: int) -> (TsOutcome, u8) {
        let sid = self.indexes.line.locs@[id].source_id;
        parse_csv::reading(
            self.bytes_of(id),
            source_delim(self.source_formats@, sid as int)->0.as_byte(),
            text::texts(self.headers_at(sid)->0),
            None,
        )
    }

    /// How many of the first `n` records are data rows.
    pub open spec fn data_rows(self, n: int) -> nat
        decreases n,
    {
        if n <= 0 {
            0
        } else {
            self.data_rows(n - 1) + if self.is_data_row(n - 1) {
                1nat
            } else {
                0
            }
        }
    }

    /// How many of the first `n` records are data rows with such an outcome.
    pub open spec fn rows_with(self, n: int, malformed: bool) -> nat
        decreases n,
    {
        if n <= 0 {
            0
        } else {
            self.rows_with(n - 1, malformed) + if self.is_data_row(n - 1) && (if malformed {
                self.row_reading(n - 1).0 is Malformed
            } else {
                self.row_reading(n - 1).0 is Timed
            }) {
                1nat
            } else {
                0
            }
        }
    }

    proof fn lemma_rows_with(self, n: int, malformed: bool)
        ensures
            self.rows_with(n, malformed) <= self.data_rows(n),
        decreases n,
    {
        if n > 0 {
            self.lemma_rows_with(n - 1, malformed);
        }
    }

    proof fn lemma_data_rows(self, a: int, b: int)
        requires
            a <= b,
        ensures
            self.data_rows(a) <= self.data_rows(b),
        decreases b - a,
    {
        if a < b {
            self.lemma_data_rows(a, b - 1);
        }
    }

    fn find_first_of_source(&self, sid: u64) -> (r: Option<usize>)
        ensures
            match r {
                Some(i) => first_of_source(self.indexes.line.locs@, sid as int, 0) == Some(
                    i as int,
                ) && i < self.indexes.line.locs@.len(),
                None => first_of_source(self.indexes.line.locs@, sid as int, 0) is None,
            },
    {
        let mut i: usize = 0;
        while i < self.indexes.line.locs.len()
            invariant
                i <= self.indexes.line.locs@.len(),
                first_of_source(self.indexes.line.locs@, sid as int, 0) == first_of_source(
                    self.indexes.line.locs@,
                    sid as int,
                    i as int,
                ),
            decreases self.indexes.line.locs@.len() - i,
        {
            if self.indexes.line.locs[i].source_id as u64 == sid {
                return Some(i);
            }
            i = i + 1;
        }
        None
    }

    /// This engine with other headers and nothing else changed.
    pub open spec fn same_but_headers(self, other: Self) -> bool {
        &&& self.indexes == other.indexes
        &&& self.mmaps == other.mmaps
        &&& self.owned_lines == other.owned_lines
        &&& self.stream_base == other.stream_base
        &&& self.source_formats == other.source_formats
        &&& self.source_regex == other.source_regex
        &&& self.schema == other.schema
    }

    /// The headers after capture: the header row of every CSV/TSV source that
    /// has a record, and what was there before for any other.
    pub open spec fn headers_captured(self, after: Self) -> bool {
        &&& after.source_headers@.len() == if self.source_headers@.len()
            < self.source_formats@.len() {
            self.source_formats@.len()
        } else {
            self.source_headers@.len()
        }
        &&& forall|sid: u32|
            sid < after.source_headers@.len() ==> match self.header_row(sid as int) {
                Some(row) => #[trigger] after.headers_at(sid) matches Some(h) && text::texts(h)
                    == row,
                None => after.headers_at(sid) == self.headers_at(sid),
            }
    }

    fn capture_headers(&mut self)
        requires
            old(self).wf(),
            old(self).source_formats@.len() <= u32::MAX,
        ensures
            final(self).same_but_headers(*old(self)),
            old(self).headers_captured(*final(self)),
    {
        while self.source_headers.len() < self.source_formats.len()
            invariant
                self.same_but_headers(*old(self)),
                old(self).source_headers@.len() <= self.source_headers@.len(),
                self.source_headers@.len() <= old(self).source_headers@.len()
                    || self.source_headers@.len() <= self.source_formats@.len(),
                forall|sid: u32| #[trigger] self.headers_at(sid) == old(self).headers_at(sid),
            decreases self.source_formats@.len() - self.source_headers@.len(),
        {
            let ghost before = *self;
            self.source_headers.push(None);
            assert forall|sid: u32| #[trigger] self.headers_at(sid) == old(self).headers_at(
                sid,
            ) by {
                assert(before.headers_at(sid) == old(self).headers_at(sid));
            }
        }
        let ghost total = self.source_headers@.len();
        let mut sid: usize = 0;
        while sid < self.source_formats.len()
            invariant
                self.same_but_headers(*old(self)),
                self.wf(),
                self.source_formats@.len() <= u32::MAX,
                sid <= self.source_formats@.len() <= self.source_headers@.len(),
                self.source_headers@.len() == total,
                forall|k: u32|
                    k < sid ==> match old(self).header_row(k as int) {
                        Some(row) => #[trigger] self.headers_at(k) matches Some(h) && text::texts(h)
                            == row,
                        None => self.headers_at(k) == old(self).headers_at(k),
                    },
                forall|k: u32| k >= sid ==> #[trigger] self.headers_at(k) == old(self).headers_at(k),
            decreases self.source_formats@.len() - sid,
        {
            let delim: Option<Delim> = match self.source_formats[sid] {
                LogFormat::Csv => Some(Delim::Comma),
                LogFormat::Tsv => Some(Delim::Tab),
                _ => None,
            };
            let ghost before = *self;
            match delim {
                Some(d) => {
                    match self.find_first_of_source(sid as u64) {
                        Some(id) => {
                            let row: Vec<String> = parse_csv::split_record(
                                self.line_bytes(id as u64),
                                d,
                            );
                            assert(old(self).header_row(sid as int) == Some(text::texts(row@)));
                            self.source_headers.set(sid, Some(row));
                        },
                        None => {},
                    }
                },
                None => {},
            }
            assert forall|k: u32| k != sid implies #[trigger] self.headers_at(k)
                == before.headers_at(k) by {}
            sid = sid + 1;
        }
        assert forall|k: u32| k < self.source_headers@.len() implies match old(self).header_row(
            k as int,
        ) {
            Some(row) => #[trigger] self.headers_at(k) matches Some(h) && text::texts(h) == row,
            None => self.headers_at(k) == old(self).headers_at(k),
        } by {
            if k < sid {
            } else {
                assert(old(self).header_row(k as int) is None);
            }
        }
    }

    /// Everything that reading the data rows again changes. `self` has the
    /// captured headers.
    pub open spec fn rows_read(self, after: Self) -> bool {
        let n = self.indexes.line.locs@.len();
        &&& after.wf()
        &&& after.indexes.line == self.indexes.line
        &&& after.mmaps == self.mmaps
        &&& after.owned_lines == self.owned_lines
        &&& after.stream_base == self.stream_base
        &&& after.source_formats == self.source_formats
        &&& after.source_headers == self.source_headers
        &&& after.source_regex == self.source_regex
        &&& after.schema == self.schema
        &&& after.indexes.tally() == self.indexes.tally()
        &&& forall|id: int|
            0 <= id < n ==> (#[trigger] after.indexes.time.ts@[id], after.indexes.severity.levels@[id])
                == (if self.is_data_row(id) {
                (self.row_reading(id).0.micros(), self.row_reading(id).1)
            } else {
                (self.indexes.time.ts@[id], self.indexes.severity.levels@[id])
            })
        &&& after.indexes.parse_stats.untimed == self.indexes.parse_stats.untimed - self.rows_with(
            n as int,
            false,
        )
        &&& after.indexes.parse_stats.ts_parse_errors == self.indexes.parse_stats.ts_parse_errors
            + self.rows_with(n as int, true)
        &&& after.indexes.parse_stats.json_parse_errors
            == self.indexes.parse_stats.json_parse_errors
    }

    /// Walk every record whose source is CSV/TSV and read its `(ts, severity)`
    /// under the now-known header. The header row itself stays untimed.
    fn recompute_csv_ts_level(&mut self)
        requires
            old(self).wf(),
            old(self).indexes.parse_stats.untimed >= old(self).data_rows(
                old(self).indexes.line.locs@.len() as int,
            ),
            old(self).indexes.parse_stats.ts_parse_errors + old(self).indexes.line.locs@.len()
                <= u64::MAX,
        ensures
            old(self).rows_read(*final(self)),
    {
        let ghost start = *self;
        let n: usize = self.indexes.line.locs.len();
        let mut id: usize = 0;
        while id < n
            invariant
                start == *old(self),
                start.wf(),
                n == start.indexes.line.locs@.len(),
                id <= n,
                self.indexes.wf(),
                self.indexes.line == start.indexes.line,
                self.mmaps == start.mmaps,
                self.owned_lines == start.owned_lines,
                self.stream_base == start.stream_base,
                self.source_formats == start.source_formats,
                self.source_headers == start.source_headers,
                self.source_regex == start.source_regex,
                self.schema == start.schema,
                self.indexes.tally() == start.indexes.tally(),
                forall|k: int|
                    0 <= k < n ==> (
                    #[trigger] self.indexes.time.ts@[k], self.indexes.severity.levels@[k]) == (
                    if k < id && start.is_data_row(k) {
                        (start.row_reading(k).0.micros(), start.row_reading(k).1)
                    } else {
                        (start.indexes.time.ts@[k], start.indexes.severity.levels@[k])
                    }),
                self.indexes.parse_stats.untimed == start.indexes.parse_stats.untimed
                    - start.rows_with(id as int, false),
                self.indexes.parse_stats.ts_parse_errors
                    == start.indexes.parse_stats.ts_parse_errors + start.rows_with(id as int, true),
                self.indexes.parse_stats.json_parse_errors
                    == start.indexes.parse_stats.json_parse_errors,
                start.rows_with(id as int, true) <= id,
                start.indexes.parse_stats.untimed >= start.data_rows(n as int),
                start.indexes.parse_stats.ts_parse_errors + n <= u64::MAX,
            decreases n - id,
        {
            let loc: LineLoc = self.indexes.line.locs[id];
            let delim: Option<Delim> = match self.format_of(loc.source_id) {
                LogFormat::Csv => Some(Delim::Comma),
                LogFormat::Tsv => Some(Delim::Tab),
                _ => None,
            };
            let is_header: bool = match self.find_first_of_source(loc.source_id as u64) {
                Some(first) => first == id,
                None => false,
            };
            proof {
                start.lemma_rows_with(id as int, false);
                start.lemma_data_rows(id as int, n as int);
                start.lemma_data_rows(id + 1, n as int);
                assert(self.headers_at(loc.source_id) == start.headers_at(loc.source_id));
                assert(self.bytes_of(id as int) == start.bytes_of(id as int));
            }
            match delim {
                Some(d) => {
                    if !is_header {
                        let mut stats: ParseStats = ParseStats::default();
                        let read: Option<(i64, u8)> = match self.headers_of(loc.source_id) {
                            Some(headers) => Some(
                                parse_csv::ts_and_level_with_header(
                                    self.line_bytes(id as u64),
                                    d,
                                    headers,
                                    &mut stats,
                                    None,
                                ),
                            ),
                            None => None,
                        };
                        match read {
                            Some((ts, sev)) => {
                                assert(start.is_data_row(id as int));
                                self.indexes.time.ts.set(id, ts);
                                self.indexes.severity.levels.set(id, sev);
                                self.indexes.parse_stats.untimed = self.indexes.parse_stats.untimed
                                    - 1 + stats.untimed;
                                self.indexes.parse_stats.ts_parse_errors =
                                self.indexes.parse_stats.ts_parse_errors + stats.ts_parse_errors;
                            },
                            None => {},
                        }
                    }
                },
                None => {},
            }
            id = id + 1;
        }
    }

    /// For every CSV/TSV source, parse the first record as the column header
    /// and keep it in `source_headers`; then read the data rows under it. Call
    /// once after all records are in. The header line stays in the index.
    ///
    /// Every data row must have been counted as untimed before.
    pub fn capture_csv_headers(&mut self)
        requires
            old(self).wf(),
            old(self).source_formats@.len() <= u32::MAX,
            old(self).indexes.parse_stats.untimed >= old(self).tabular_rows(
                old(self).indexes.line.locs@.len() as int,
            ),
            old(self).indexes.parse_stats.ts_parse_errors + old(self).indexes.line.locs@.len()
                <= u64::MAX,
        ensures
            exists|mid: Engine<'a>|
                mid.same_but_headers(*old(self)) && old(self).headers_captured(mid)
                    && #[trigger] mid.rows_read(*final(self)),
    {
        self.capture_headers();
        let ghost mid = *self;
        proof {
            mid.lemma_data_rows_bound(*old(self), mid.indexes.line.locs@.len() as int);
        }
        self.recompute_csv_ts_level();
        assert(mid.rows_read(*self));
    }

    /// A record of a CSV/TSV source that is not the first of its source.
    pub open spec fn is_tabular_row(self, id: int) -> bool {
        let sid = self.indexes.line.locs@[id].source_id as int;
        source_delim(self.source_formats@, sid) is Some && first_of_source(
            self.indexes.line.locs@,
            sid,
            0,
        ) != Some(id)
    }

    /// How many of the first `n` records are such.
    pub open spec fn tabular_rows(self, n: int) -> nat
        decreases n,
    {
        if n <= 0 {
            0
        } else {
            self.tabular_rows(n - 1) + if self.is_tabular_row(n - 1) {
                1nat
            } else {
                0
            }
        }
    }

    /// Data rows are tabular rows, whatever headers there are.
    proof fn lemma_data_rows_bound(self, other: Self, n: int)
        requires
            self.indexes == other.indexes,
            self.source_formats == other.source_formats,
        ensures
            self.data_rows(n) <= other.tabular_rows(n),
        decreases n,
    {
        if n > 0 {
            self.lemma_data_rows_bound(other, n - 1);
        }
    }

    /// The lines of the records with those ids.
    pub open spec fn lines_of(self, ids: Seq<u64>) -> Seq<Seq<u8>> {
        Seq::new(ids.len(), |i: int| self.bytes_of(ids[i] as int))
    }

    /// The first `n` lines.
    pub open spec fn first_lines(self, n: int) -> Seq<Seq<u8>> {
        Seq::new(n as nat, |i: int| self.bytes_of(i))
    }

    /// `after` is this engine with the schema of those lines.
    pub open spec fn with_schema_of(self, lines: Seq<Seq<u8>>, after: Self) -> bool {
        &&& after.indexes == self.indexes
        &&& after.mmaps == self.mmaps
        &&& after.owned_lines == self.owned_lines
        &&& after.stream_base == self.stream_base
        &&& after.source_formats == self.source_formats
        &&& after.source_headers == self.source_headers
        &&& after.source_regex == self.source_regex
        &&& after.schema matches Some(s) && s.wf() && s.records_scanned == lines.len()
            && string_map::map_of(s.ordered_fields@) == schema::counting_lines(lines)
    }

    /// Build the locked schema from the first `min(FILE_WARMUP_LINES,
    /// indexed)` records.
    pub fn scan_schema(&mut self)
        requires
            old(self).wf(),
        ensures
            ({
                let total = old(self).indexes.line.locs@.len();
                let window = schema::warmup_len(total as int);
                old(self).with_schema_of(old(self).first_lines(window), *final(self))
            }),
    {
        let total: usize = self.indexes.len();
        let window: usize = if total < FILE_WARMUP_LINES {
            total
        } else {
            FILE_WARMUP_LINES
        };
        let mut sb: SchemaBuilder = SchemaBuilder::new();
        let ghost lines = self.first_lines(window as int);
        let mut i: usize = 0;
        assert(lines.take(0) =~= Seq::empty());
        while i < window
            invariant
                *self == *old(self),
                self.wf(),
                i <= window <= FILE_WARMUP_LINES,
                lines == self.first_lines(window as int),
                sb.wf(),
                !sb.locked,
                sb.records_scanned == i,
                sb.fields@ == schema::counting_lines(lines.take(i as int)),
            decreases window - i,
        {
            assert(lines.take(i + 1).drop_last() =~= lines.take(i as int));
            sb.scan(self.line_bytes(i as u64));
            i = i + 1;
        }
        assert(lines.take(window as int) =~= lines);
        self.schema = Some(sb.lock());
    }

    /// Rescan the schema over an arbitrary set of records: a window of at most
    /// `FILE_WARMUP_LINES` centered on the middle of `line_ids`. No change when
    /// there are none.
    pub fn rescan_schema(&mut self, line_ids: &[u64])
        requires
            old(self).wf(),
        ensures
            line_ids@.len() == 0 ==> *final(self) == *old(self),
            line_ids@.len() > 0 ==> {
                let n = line_ids@.len() as int;
                let window = schema::warmup_len(n);
                let start = schema::warmup_start(n);
                old(self).with_schema_of(
                    old(self).lines_of(line_ids@.subrange(start, start + window)),
                    *final(self),
                )
            },
    {
        let n: usize = line_ids.len();
        if n == 0 {
            return;
        }
        let window: usize = if n < FILE_WARMUP_LINES {
            n
        } else {
            FILE_WARMUP_LINES
        };
        let start: usize = (n - window) / 2;
        let mut sb: SchemaBuilder = SchemaBuilder::new();
        let ghost lines = self.lines_of(line_ids@.subrange(start as int, start + window));
        let mut i: usize = 0;
        assert(lines.take(0) =~= Seq::empty());
        while i < window
            invariant
                *self == *old(self),
                self.wf(),
                i <= window <= FILE_WARMUP_LINES,
                start + window <= n == line_ids@.len(),
                lines == self.lines_of(line_ids@.subrange(start as int, start + window)),
                sb.wf(),
                !sb.locked,
                sb.records_scanned == i,
                sb.fields@ == schema::counting_lines(lines.take(i as int)),
            decreases window - i,
        {
            assert(lines.take(i + 1).drop_last() =~= lines.take(i as int));
            sb.scan(self.line_bytes(line_ids[start + i]));
            i = i + 1;
        }
        assert(lines.take(window as int) =~= lines);
        self.schema = Some(sb.lock());
    }

    /// More than half the records carry a parsed timestamp.
    pub open spec fn mostly_timed(self) -> bool {
        2 * (self.indexes.time.ts@.len() - indexes::occurrences(
            self.indexes.time.ts@,
            TS_UNTIMED,
        )) > self.indexes.time.ts@.len()
    }

    /// More than half the records carry a recognizable severity.
    pub open spec fn mostly_levelled(self) -> bool {
        2 * (self.indexes.severity.levels@.len() - indexes::occurrences(
            self.indexes.severity.levels@,
            severity::UNKNOWN,
        )) > self.indexes.severity.levels@.len()
    }

    /// Schema warmup found at least one structured field.
    pub open spec fn structured(self) -> bool {
        self.schema matches Some(s) && s.ordered_fields@.len() > 0
    }

    /// True when more than half the records carry a parsed timestamp: a single
    /// timestamp-shaped line in a plain-text log does not turn on structured
    /// mode.
    pub fn has_timestamps(&self) -> (r: bool)
        ensures
            r == self.mostly_timed(),
    {
        let total: usize = self.indexes.time.len();
        let untimed: usize = self.indexes.time.untimed_count();
        total - untimed > untimed
    }

    /// True when more than half the records carry a recognizable severity.
    pub fn has_severity(&self) -> (r: bool)
        ensures
            r == self.mostly_levelled(),
    {
        let total: usize = self.indexes.severity.len();
        let unknown: usize = self.indexes.severity.count_of(severity::UNKNOWN);
        total - unknown > unknown
    }

    /// True if schema warmup found at least one structured field.
    pub fn has_structured_fields(&self) -> (r: bool)
        ensures
            r == self.structured(),
    {
        match &self.schema {
            Some(s) => s.ordered_fields.len() > 0,
            None => false,
        }
    }
}

impl<'a> Default for Engine<'a> {
    fn default() -> (r: Self)
        ensures
            r.wf(),
            r.indexes.line.locs@.len() == 0,
            r.indexes.tally() == (ParseStats {
                untimed: 0,
                ts_parse_errors: 0,
                json_parse_errors: 0,
            }),
            r.indexes.parse_stats == (ParseStats {
                untimed: 0,
                ts_parse_errors: 0,
                json_parse_errors: 0,
            }),
            r.mmaps@.len() == 0,
            r.owned_lines@.len() == 0,
            r.stream_base is None,
            r.source_formats@.len() == 0,
            r.source_headers@.len() == 0,
            r.source_regex@.len() == 0,
            r.schema is None,
    {
        Engine::new()
    }
}

/// A source counts as timed, or as levelled, when more than half of its records
/// have a timestamp, or a level.
pub proof fn law_more_than_half_decides(engine: Engine)
    ensures
        engine.mostly_timed() <==> 2 * engine.indexes.time.ts@.filter(
            |t: i64| t != TS_UNTIMED,
        ).len() > engine.indexes.time.ts@.len(),
        engine.mostly_levelled() <==> 2 * engine.indexes.severity.levels@.filter(
            |l: u8| l != severity::UNKNOWN,
        ).len() > engine.indexes.severity.levels@.len(),
{
    let timed = |t: i64| t != TS_UNTIMED;
    let levelled = |l: u8| l != severity::UNKNOWN;
    indexes::lemma_occurrences_filter(engine.indexes.time.ts@, TS_UNTIMED, timed);
    indexes::lemma_occurrences_filter(engine.indexes.severity.levels@, severity::UNKNOWN, levelled);
}

/// Walking on from before the first record of a source comes to it.
proof fn lemma_first_of_source(locs: Seq<LineLoc>, sid: int, i: int, id: int)
    requires
        0 <= i <= id < locs.len(),
        locs[id].source_id == sid,
        forall|k: int| i <= k < id ==> (#[trigger] locs[k]).source_id != sid,
    ensures
        first_of_source(locs, sid, i) == Some(id),
    decreases id - i,
{
    if i < id {
        lemma_first_of_source(locs, sid, i + 1, id);
    }
}

/// A source without a record has no first one.
proof fn lemma_none_of_source(locs: Seq<LineLoc>, sid: int, i: int)
    requires
        0 <= i,
        forall|k: int| i <= k < locs.len() ==> (#[trigger] locs[k]).source_id != sid,
    ensures
        first_of_source(locs, sid, i) is None,
    decreases locs.len() - i,
{
    if i < locs.len() {
        lemma_none_of_source(locs, sid, i + 1);
    }
}

/// The header of a table is its first record, split at commas for CSV and at
/// tabs for TSV. A source in another format, or without a record, has none.
pub proof fn law_header_is_the_first_record(engine: Engine, sid: u32, id: int)
    requires
        0 <= id <= engine.indexes.line.locs@.len(),
        forall|k: int|
            0 <= k < id ==> (#[trigger] engine.indexes.line.locs@[k]).source_id != sid,
        id < engine.indexes.line.locs@.len() ==> engine.indexes.line.locs@[id].source_id == sid,
    ensures
        id < engine.indexes.line.locs@.len() && engine.format_at(sid) == LogFormat::Csv
            ==> engine.header_row(sid as int) == Some(
            parse_csv::row(engine.bytes_of(id), ',' as u8),
        ),
        id < engine.indexes.line.locs@.len() && engine.format_at(sid) == LogFormat::Tsv
            ==> engine.header_row(sid as int) == Some(
            parse_csv::row(engine.bytes_of(id), '\t' as u8),
        ),
        id == engine.indexes.line.locs@.len() || (engine.format_at(sid) != LogFormat::Csv
            && engine.format_at(sid) != LogFormat::Tsv) ==> engine.header_row(sid as int) is None,
{
    let locs = engine.indexes.line.locs@;
    if id < locs.len() {
        lemma_first_of_source(locs, sid as int, 0, id);
    } else {
        lemma_none_of_source(locs, sid as int, 0);
    }
}

/// Once the headers are there, a record of a table that has one before it
/// carries what it says under the header. The first one of a table, and the
/// records of other sources, stay as they were.
pub proof fn law_rows_are_read_by_their_header(before: Engine, after: Engine, first: int, id: int)
    requires
        before.rows_read(after),
        0 <= first <= id < before.indexes.line.locs@.len(),
        ({
            let locs = before.indexes.line.locs@;
            &&& locs[first].source_id == locs[id].source_id
            &&& forall|k: int|
                0 <= k < first ==> (#[trigger] locs[k]).source_id != locs[id].source_id
        }),
    ensures
        ({
            let sid = before.indexes.line.locs@[id].source_id;
            let delim = if before.format_at(sid) == LogFormat::Csv {
                ',' as u8
            } else {
                '\t' as u8
            };
            let tabular = before.format_at(sid) == LogFormat::Csv || before.format_at(sid)
                == LogFormat::Tsv;
            if tabular && first < id && before.headers_at(sid) is Some {
                let read = parse_csv::reading(
                    before.bytes_of(id),
                    delim,
                    text::texts(before.headers_at(sid)->0),
                    None,
                );
                &&& after.indexes.time.ts@[id] == match read.0 {
                    TsOutcome::Timed(t) => t,
                    _ => TS_UNTIMED,
                }
                &&& after.indexes.severity.levels@[id] == read.1
            } else {
                &&& after.indexes.time.ts@[id] == before.indexes.time.ts@[id]
                &&& after.indexes.severity.levels@[id] == before.indexes.severity.levels@[id]
            }
        }),
        after.bytes_of(id) == before.bytes_of(id),
{
    let locs = before.indexes.line.locs@;
    let sid = locs[id].source_id;
    lemma_first_of_source(locs, sid as int, 0, first);
    let seen = (after.indexes.time.ts@[id], after.indexes.severity.levels@[id]);
    assert(seen.0 == after.indexes.time.ts@[id]);
    assert(seen == (if before.is_data_row(id) {
        (before.row_reading(id).0.micros(), before.row_reading(id).1)
    } else {
        (before.indexes.time.ts@[id], before.indexes.severity.levels@[id])
    }));
}

/// Counting with a test is what the filter keeps.
proof fn lemma_rows_with_filter(engine: Engine, n: int, malformed: bool, test: spec_fn(int) -> bool)
    requires
        0 <= n,
        forall|i: int|
            #[trigger] test(i) <==> engine.is_data_row(i) && (if malformed {
                engine.row_reading(i).0 is Malformed
            } else {
                engine.row_reading(i).0 is Timed
            }),
    ensures
        engine.rows_with(n, malformed) == Seq::new(n as nat, |i: int| i).filter(test).len(),
    decreases n,
{
    reveal(Seq::filter);
    let all = Seq::new(n as nat, |i: int| i);
    if n > 0 {
        lemma_rows_with_filter(engine, n - 1, malformed, test);
        assert(all.drop_last() =~= Seq::new((n - 1) as nat, |i: int| i));
        assert(all.last() == n - 1);
    }
}

/// Reading the data rows takes each one that turns out timed off the untimed,
/// and counts each one whose timestamp is malformed as an error.
pub proof fn law_rows_move_the_counters(before: Engine, after: Engine)
    requires
        before.rows_read(after),
    ensures
        after.indexes.parse_stats.untimed == before.indexes.parse_stats.untimed - Seq::new(
            before.indexes.line.locs@.len(),
            |i: int| i,
        ).filter(|i: int| before.is_data_row(i) && before.row_reading(i).0 is Timed).len(),
        after.indexes.parse_stats.ts_parse_errors == before.indexes.parse_stats.ts_parse_errors
            + Seq::new(before.indexes.line.locs@.len(), |i: int| i).filter(
            |i: int| before.is_data_row(i) && before.row_reading(i).0 is Malformed,
        ).len(),
        after.indexes.parse_stats.json_parse_errors
            == before.indexes.parse_stats.json_parse_errors,
{
    let n = before.indexes.line.locs@.len() as int;
    let timed = |i: int| before.is_data_row(i) && before.row_reading(i).0 is Timed;
    let malformed = |i: int| before.is_data_row(i) && before.row_reading(i).0 is Malformed;
    lemma_rows_with_filter(before, n, false, timed);
    lemma_rows_with_filter(before, n, true, malformed);
}

/// A record that comes in stands last, with its own timestamp, level, source
/// and bytes, and the records before it stay as they were.
pub proof fn law_next_record_stands_last(before: Engine, rec: RecordView, after: Engine, id: int)
    requires
        before.ingested(rec, after),
    ensures
        ({
            let n = before.indexes.line.locs@.len();
            &&& after.indexes.line.locs@.len() == n + 1
            &&& after.indexes.time.ts@.last() == rec.ts_micros
            &&& after.indexes.severity.levels@.last() == rec.severity
            &&& 0 <= id < n && before.wf() ==> {
                &&& after.indexes.line.locs@[id] == before.indexes.line.locs@[id]
                &&& after.indexes.time.ts@[id] == before.indexes.time.ts@[id]
                &&& after.indexes.severity.levels@[id] == before.indexes.severity.levels@[id]
                &&& after.bytes_of(id) == before.bytes_of(id)
            }
            &&& match rec.bytes {
                Payload::Owned(b) => {
                    &&& after.bytes_of(n as int) == b
                    &&& after.indexes.line.locs@[n as int].source_id == rec.source_id
                },
                Payload::FileRef { source_id, offset, len } => {
                    &&& after.indexes.line.locs@[n as int].source_id == source_id
                    &&& source_id < before.mmaps@.len() && offset + len
                        <= before.mmaps@[source_id as int]@.len() ==> after.bytes_of(n as int)
                        == before.mmaps@[source_id as int]@.subrange(offset as int, offset + len)
                },
                Payload::FileRefMulti { source_id, .. } => {
                    after.indexes.line.locs@[n as int].source_id == source_id
                },
            }
        }),
{
}

/// A record of several spans is the text of each, with a newline behind it.
pub proof fn law_spans_are_joined_by_lines(
    sources: Seq<&[u8]>,
    source_id: u32,
    spans: Seq<(u64, u32)>,
    offset: u64,
    len: u32,
)
    requires
        source_id < sources.len(),
        offset + len <= sources[source_id as int]@.len(),
    ensures
        payload_bytes(sources, Payload::FileRefMulti { source_id, spans: spans.push((offset, len)) })
            == payload_bytes(sources, Payload::FileRefMulti { source_id, spans })
            + sources[source_id as int]@.subrange(offset as int, offset + len)
            + seq!['\n' as u8],
        payload_bytes(sources, Payload::FileRefMulti { source_id, spans: Seq::empty() }).len() == 0,
{
    assert(spans.push((offset, len)).drop_last() =~= spans);
}

} // verus!
