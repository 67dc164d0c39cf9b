//! FileProducer: records of a file's bytes.
//!
//! Emits records that name their bytes by offset and length, never as a
//! borrowed slice; the engine resolves them against the source.

use vstd::prelude::*;

use crate::engine;
use crate::engine::format::LogFormat;
use crate::engine::indexer;
use crate::engine::parse::{FieldNames, ParseStats};
use crate::engine::record::{Payload, RawRecord, RecordBytes, RecordView};
use crate::engine::Engine;
use crate::io::RecordProducer;
use crate::scan;
use crate::scan::ByteClass;

verus! {

/// `memchr::memchr`: the index of the first occurrence of `needle`, if any.
pub assume_specification[ memchr::memchr ](needle: u8, haystack: &[u8]) -> (r: Option<usize>)
    ensures
        match r {
            Some(i) => i < haystack@.len() && haystack@[i as int] == needle && forall|k: int|
                0 <= k < i ==> #[trigger] haystack@[k] != needle,
            None => forall|k: int| 0 <= k < haystack@.len() ==> #[trigger] haystack@[k] != needle,
        },
;

/// How a producer reads its lines.
pub struct Reading {
    pub source_id: u32,
    pub format: LogFormat,
    pub fields: Option<FieldNames>,
}

/// The field names to look for, as a reference.
pub open spec fn fields_ref<'a>(fields: &'a Option<FieldNames>) -> Option<&'a FieldNames> {
    match fields {
        Some(f) => Some(f),
        None => None,
    }
}

/// The record of the line between two indices.
pub open spec fn line_record(b: Seq<u8>, i: int, e: int, line_id: int, how: Reading) -> RecordView {
    let (outcome, sev) = how.format.reading(b.subrange(i, e), fields_ref(&how.fields));
    RecordView {
        source_id: how.source_id,
        line_id: line_id as u64,
        ts_micros: outcome.micros(),
        severity: sev,
        bytes: Payload::FileRef {
            source_id: how.source_id,
            offset: i as u64,
            len: (e - i) as u32,
        },
    }
}

/// The records of the non-empty lines from index `i` on.
pub open spec fn line_records(b: Seq<u8>, i: int, line_id: int, how: Reading) -> Seq<RecordView>
    decreases b.len() - i,
{
    if !(0 <= i < b.len()) {
        Seq::empty()
    } else {
        let e = scan::run_end(b, i, ByteClass::Except('\n' as u8));
        if !(i < e <= b.len()) {
            line_records(b, i + 1, line_id, how)
        } else {
            let next = if e < b.len() {
                e + 1
            } else {
                e
            };
            seq![line_record(b, i, e, line_id, how)] + line_records(b, next, line_id + 1, how)
        }
    }
}

pub struct FileProducer<'a> {
    source_id: u32,
    mmap: &'a [u8],
    cursor: usize,
    line_id_counter: u64,
    format: LogFormat,
    fields: Option<FieldNames>,
    stats: ParseStats,
}

impl<'a> FileProducer<'a> {
    /// How it reads its lines.
    pub closed spec fn reading(self) -> Reading {
        Reading { source_id: self.source_id, format: self.format, fields: self.fields }
    }

    /// The bytes of the file.
    pub closed spec fn source(self) -> Seq<u8> {
        self.mmap@
    }

    /// Outcomes counted so far.
    pub closed spec fn tally(self) -> ParseStats {
        self.stats
    }

    /// Nothing has been read yet.
    pub closed spec fn fresh(self) -> bool {
        self.cursor == 0 && self.line_id_counter == 0
    }

    /// Read the bytes of a file as NDJSON with the default field names.
    pub fn new(mmap: &'a [u8], source_id: u32) -> (r: Self)
        ensures
            r.wf(),
            r.fresh(),
            r.source() == mmap@,
            r.reading() == (Reading { source_id, format: LogFormat::Ndjson, fields: None }),
            r.remaining() == line_records(mmap@, 0, 0, r.reading()),
            r.tally() == (ParseStats { untimed: 0, ts_parse_errors: 0, json_parse_errors: 0 }),
    {
        FileProducer {
            source_id,
            mmap,
            cursor: 0,
            line_id_counter: 0,
            format: LogFormat::Ndjson,
            fields: None,
            stats: ParseStats::default(),
        }
    }

    /// Look for other field names.
    pub fn with_fields(self, fields: FieldNames) -> (r: Self)
        requires
            self.wf(),
            self.fresh(),
        ensures
            r.wf(),
            r.fresh(),
            r.source() == self.source(),
            r.reading() == (Reading { fields: Some(fields), ..self.reading() }),
            r.remaining() == line_records(self.source(), 0, 0, r.reading()),
            r.tally() == self.tally(),
    {
        FileProducer { fields: Some(fields), ..self }
    }

    /// Read lines of another format.
    pub fn with_format(self, format: LogFormat) -> (r: Self)
        requires
            self.wf(),
            self.fresh(),
        ensures
            r.wf(),
            r.fresh(),
            r.source() == self.source(),
            r.reading() == (Reading { format, ..self.reading() }),
            r.remaining() == line_records(self.source(), 0, 0, r.reading()),
            r.tally() == self.tally(),
    {
        FileProducer { format, ..self }
    }

    /// The bytes that the records' spans refer to.
    pub fn mmap(&self) -> (r: &'a [u8])
        ensures
            r@ == self.source(),
    {
        self.mmap
    }

    pub fn source_id(&self) -> (r: u32)
        ensures
            r == self.reading().source_id,
    {
        self.source_id
    }

    pub fn total_bytes(&self) -> (r: u64)
        ensures
            r == self.source().len(),
    {
        self.mmap.len() as u64
    }

    /// Outcomes of the lines read so far.
    pub fn stats(&self) -> (r: ParseStats)
        ensures
            r == self.tally(),
    {
        self.stats
    }
}

impl<'a> RecordProducer for FileProducer<'a> {
    closed spec fn wf(&self) -> bool {
        &&& self.cursor <= self.mmap@.len()
        &&& self.line_id_counter <= self.cursor
        &&& self.stats.untimed <= self.cursor
        &&& self.stats.ts_parse_errors <= self.cursor
        &&& self.stats.json_parse_errors <= self.cursor
    }

    closed spec fn remaining(&self) -> Seq<RecordView> {
        line_records(
            self.mmap@,
            self.cursor as int,
            self.line_id_counter as int,
            self.reading(),
        )
    }

    open spec fn live(&self) -> bool {
        false
    }

    fn next(&mut self) -> (r: Option<RawRecord>)
        ensures
            final(self).reading() == old(self).reading(),
            final(self).source() == old(self).source(),
            match r {
                Some(rec) => exists|i: int, e: int|
                    {
                        &&& 0 <= i <= e <= old(self).source().len()
                        &&& rec.bytes@ == (Payload::FileRef {
                            source_id: old(self).reading().source_id,
                            offset: i as u64,
                            len: (e - i) as u32,
                        })
                        &&& final(self).tally() == old(self).tally().counting(
                            old(self).reading().format.reading(
                                #[trigger] old(self).source().subrange(i, e),
                                fields_ref(&old(self).reading().fields),
                            ).0,
                        )
                    },
                None => final(self).tally() == old(self).tally(),
            },
    {
        let buf: &'a [u8] = self.mmap;
        let ghost start = *self;
        let ghost all = self.remaining();
        while self.cursor < buf.len() && buf[self.cursor] == '\n' as u8
            invariant
                self.wf(),
                buf == self.mmap,
                self.mmap == start.mmap,
                self.reading() == start.reading(),
                self.stats == start.stats,
                self.remaining() == all,
            decreases buf@.len() - self.cursor,
        {
            self.cursor = self.cursor + 1;
        }
        if self.cursor >= buf.len() {
            return None;
        }
        let at: usize = self.cursor;
        let rest: &'a [u8] = &buf[at..buf.len()];
        let line_len: usize = match memchr::memchr('\n' as u8, rest) {
            Some(pos) => pos,
            None => rest.len(),
        };
        let end: usize = at + line_len;
        proof {
            let class = ByteClass::Except('\n' as u8);
            assert forall|k: int| at <= k < end implies class.has(#[trigger] buf@[k]) by {
                assert(buf@[k] == rest@[k - at]);
            }
            if end < buf@.len() {
                assert(buf@[end as int] == rest@[line_len as int]);
            }
            scan::lemma_run_end_at(buf@, at as int, end as int, class);
            assert(line_len > 0) by {
                assert(rest@[0] == buf@[at as int]);
            }
        }
        let line: &'a [u8] = &buf[at..end];
        let (ts_micros, severity) = self.format.parse_ts_level(
            line,
            &mut self.stats,
            self.fields.as_ref(),
        );
        let line_id: u64 = self.line_id_counter;
        self.line_id_counter = line_id + 1;
        self.cursor = if end < buf.len() {
            end + 1
        } else {
            end
        };
        let ghost tail = self.remaining();
        proof {
            assert(all == seq![
                line_record(buf@, at as int, end as int, line_id as int, start.reading()),
            ] + tail);
            assert(all.skip(1) =~= tail);
            assert(line@ == start.source().subrange(at as int, end as int));
        }
        let len: u32 = #[verifier::truncate] (line_len as u32);
        Some(
            RawRecord {
                source_id: self.source_id,
                line_id,
                ts_micros,
                severity,
                bytes: RecordBytes::FileRef { source_id: self.source_id, offset: at as u64, len },
            },
        )
    }

    fn is_live(&self) -> (r: bool) {
        false
    }
}

/// The non-empty lines of some bytes, from index `i` on.
pub open spec fn filled_lines(b: Seq<u8>, i: int) -> Seq<Seq<u8>>
    decreases b.len() - i,
{
    if !(0 <= i < b.len()) {
        Seq::empty()
    } else {
        let e = scan::run_end(b, i, ByteClass::Except('\n' as u8));
        if !(i < e <= b.len()) {
            filled_lines(b, i + 1)
        } else {
            let next = if e < b.len() {
                e + 1
            } else {
                e
            };
            seq![b.subrange(i, e)] + filled_lines(b, next)
        }
    }
}

/// There are as many records as non-empty lines, and no more than bytes.
proof fn lemma_as_many_records(b: Seq<u8>, i: int, line_id: int, how: Reading)
    requires
        0 <= i <= b.len(),
    ensures
        line_records(b, i, line_id, how).len() == filled_lines(b, i).len(),
        filled_lines(b, i).len() <= b.len() - i,
    decreases b.len() - i,
{
    if i < b.len() {
        let e = scan::run_end(b, i, ByteClass::Except('\n' as u8));
        if !(i < e <= b.len()) {
            lemma_as_many_records(b, i + 1, line_id, how);
        } else {
            let next = if e < b.len() {
                e + 1
            } else {
                e
            };
            lemma_as_many_records(b, next, line_id + 1, how);
        }
    }
}

/// The records of a file are its non-empty lines, in order: resolved against
/// the file, each record gives its line back, with the timestamp and severity
/// that the format reads in it. A line longer than a span can be is left out.
pub proof fn law_records_are_the_lines(
    sources: Seq<&[u8]>,
    b: Seq<u8>,
    i: int,
    line_id: int,
    how: Reading,
    k: int,
)
    requires
        how.source_id < sources.len(),
        sources[how.source_id as int]@ == b,
        0 <= i <= b.len() <= u64::MAX,
        0 <= line_id,
        line_id + (b.len() - i) <= u64::MAX,
        0 <= k < filled_lines(b, i).len(),
        filled_lines(b, i)[k].len() <= u32::MAX,
    ensures
        line_records(b, i, line_id, how).len() == filled_lines(b, i).len(),
        ({
            let rec = line_records(b, i, line_id, how)[k];
            let line = filled_lines(b, i)[k];
            &&& rec.source_id == how.source_id
            &&& rec.line_id == line_id + k
            &&& engine::payload_bytes(sources, rec.bytes) == line
            &&& rec.ts_micros == how.format.reading(line, fields_ref(&how.fields)).0.micros()
            &&& rec.severity == how.format.reading(line, fields_ref(&how.fields)).1
        }),
    decreases b.len() - i,
{
    lemma_as_many_records(b, i, line_id, how);
    let e = scan::run_end(b, i, ByteClass::Except('\n' as u8));
    if !(i < e <= b.len()) {
        law_records_are_the_lines(sources, b, i + 1, line_id, how, k);
    } else {
        let next = if e < b.len() {
            e + 1
        } else {
            e
        };
        let rest = filled_lines(b, next);
        let recs = line_records(b, next, line_id + 1, how);
        lemma_as_many_records(b, next, line_id + 1, how);
        if k > 0 {
            assert(filled_lines(b, i)[k] == rest[k - 1]);
            law_records_are_the_lines(sources, b, next, line_id + 1, how, k - 1);
            assert(line_records(b, i, line_id, how)[k] == recs[k - 1]);
        } else {
            assert(filled_lines(b, i)[0] == b.subrange(i, e));
            assert(line_records(b, i, line_id, how)[0] == line_record(b, i, e, line_id, how));
        }
    }
}

/// An indexed file reads back: after it was drained into a fresh engine, the
/// record of every line id is the line of that number, and the indexes hold
/// its timestamp and severity.
pub proof fn law_indexed_file_reads_back<'a>(
    before: Engine<'a>,
    how: Reading,
    after: Engine<'a>,
    k: int,
)
    requires
        before.wf(),
        before.indexes.line.locs@.len() == 0,
        how.source_id < before.mmaps@.len(),
        before.mmaps@[how.source_id as int]@.len() <= u64::MAX,
        indexer::drained(
            before,
            line_records(before.mmaps@[how.source_id as int]@, 0, 0, how),
            after,
        ),
        0 <= k < filled_lines(before.mmaps@[how.source_id as int]@, 0).len(),
        filled_lines(before.mmaps@[how.source_id as int]@, 0)[k].len() <= u32::MAX,
    ensures
        ({
            let lines = filled_lines(before.mmaps@[how.source_id as int]@, 0);
            let (outcome, sev) = how.format.reading(lines[k], fields_ref(&how.fields));
            &&& after.indexes.line.locs@.len() == lines.len()
            &&& after.bytes_of(k) == lines[k]
            &&& after.indexes.time.ts@[k] == outcome.micros()
            &&& after.indexes.severity.levels@[k] == sev
        }),
{
    let b = before.mmaps@[how.source_id as int]@;
    let recs = line_records(b, 0, 0, how);
    law_records_are_the_lines(before.mmaps@, b, 0, 0, how, k);
    assert(after.bytes_of(0 + k) == engine::payload_bytes(before.mmaps@, recs[k].bytes));
}

} // verus!
