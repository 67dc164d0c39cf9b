//! StreamProducer: records of a stream that is read line by line.
//!
//! Reading itself happens outside: the owner of the stream hands over what
//! each read gave, and learns what to do next. Records own their bytes.

use vstd::prelude::*;

use crate::engine::format::LogFormat;
use crate::engine::parse::{FieldNames, ParseStats, TsOutcome};
use crate::engine::record::{Payload, RawRecord, RecordBytes, RecordView};
use crate::io::file::Reading;
use crate::io::file;
use crate::scan;

verus! {

/// What one read up to a newline gave.
pub enum ReadEvent {
    /// Bytes, with the newline unless the stream ended without one.
    Chunk(Vec<u8>),
    /// Nothing: the stream has ended.
    End,
    /// The read failed.
    Failed,
}

/// What to do after a read.
pub enum StreamStep {
    /// A record is complete.
    Record(RawRecord),
    /// The line was blank; read on.
    ReadMore,
    /// The stream is closed.
    Closed,
}

/// A line without its newline, and without a carriage return before that.
pub open spec fn without_newline(b: Seq<u8>) -> Seq<u8> {
    let t = if b.len() > 0 && b.last() == '\n' as u8 {
        b.drop_last()
    } else {
        b
    };
    if t.len() > 0 && t.last() == '\r' as u8 {
        t.drop_last()
    } else {
        t
    }
}

/// The record of a line.
pub open spec fn owned_record(line: Seq<u8>, line_id: u64, how: Reading) -> RecordView {
    let (outcome, sev) = how.format.reading(line, file::fields_ref(&how.fields));
    RecordView {
        source_id: how.source_id,
        line_id,
        ts_micros: outcome.micros(),
        severity: sev,
        bytes: Payload::Owned(line),
    }
}

pub struct StreamProducer {
    source_id: u32,
    line_id_counter: u64,
    closed: bool,
    format: LogFormat,
    fields: Option<FieldNames>,
    stats: ParseStats,
}

impl StreamProducer {
    /// How it reads its lines.
    pub closed spec fn reading(self) -> Reading {
        Reading { source_id: self.source_id, format: self.format, fields: self.fields }
    }

    /// Records given so far.
    pub closed spec fn given(self) -> u64 {
        self.line_id_counter
    }

    /// The stream has ended or failed.
    pub closed spec fn is_closed(self) -> bool {
        self.closed
    }

    /// Outcomes counted so far.
    pub closed spec fn tally(self) -> ParseStats {
        self.stats
    }

    /// Read a stream as NDJSON with the default field names.
    pub fn new(source_id: u32) -> (r: Self)
        ensures
            r.reading() == (Reading { source_id, format: LogFormat::Ndjson, fields: None }),
            r.given() == 0,
            !r.is_closed(),
            r.tally() == (ParseStats { untimed: 0, ts_parse_errors: 0, json_parse_errors: 0 }),
    {
        StreamProducer {
            source_id,
            line_id_counter: 0,
            closed: false,
            format: LogFormat::Ndjson,
            fields: None,
            stats: ParseStats::default(),
        }
    }

    /// Look for other field names.
    pub fn with_fields(self, fields: FieldNames) -> (r: Self)
        ensures
            r.reading() == (Reading { fields: Some(fields), ..self.reading() }),
            r.given() == self.given(),
            r.is_closed() == self.is_closed(),
            r.tally() == self.tally(),
    {
        StreamProducer { fields: Some(fields), ..self }
    }

    /// Read lines of another format.
    pub fn with_format(self, format: LogFormat) -> (r: Self)
        ensures
            r.reading() == (Reading { format, ..self.reading() }),
            r.given() == self.given(),
            r.is_closed() == self.is_closed(),
            r.tally() == self.tally(),
    {
        StreamProducer { format, ..self }
    }

    pub fn source_id(&self) -> (r: u32)
        ensures
            r == self.reading().source_id,
    {
        self.source_id
    }

    /// Outcomes of the lines read so far.
    pub fn stats(&self) -> (r: ParseStats)
        ensures
            r == self.tally(),
    {
        self.stats
    }

    /// Records may continue to arrive until the stream closes.
    pub fn is_live(&self) -> (r: bool)
        ensures
            r == !self.is_closed(),
    {
        !self.closed
    }

    /// Take what a read gave. A closed stream stays closed; the end of the
    /// stream and a failed read close it; a blank line is no record.
    pub fn accept(&mut self, event: ReadEvent) -> (r: StreamStep)
        requires
            old(self).given() < u64::MAX,
            old(self).tally().has_room(),
        ensures
            final(self).reading() == old(self).reading(),
            old(self).is_closed() ==> r is Closed && *final(self) == *old(self),
            !old(self).is_closed() ==> match event {
                ReadEvent::Chunk(b) => {
                    let line = without_newline(b@);
                    &&& !final(self).is_closed()
                    &&& if line.len() == 0 {
                        r is ReadMore && *final(self) == *old(self)
                    } else {
                        &&& r matches StreamStep::Record(rec) && rec@ == owned_record(
                            line,
                            old(self).given(),
                            old(self).reading(),
                        )
                        &&& final(self).given() == old(self).given() + 1
                        &&& final(self).tally() == old(self).tally().counting(
                            old(self).reading().format.reading(
                                line,
                                file::fields_ref(&old(self).reading().fields),
                            ).0,
                        )
                    }
                },
                _ => {
                    &&& r is Closed
                    &&& final(self).is_closed()
                    &&& final(self).given() == old(self).given()
                    &&& final(self).tally() == old(self).tally()
                },
            },
    {
        if self.closed {
            return StreamStep::Closed;
        }
        match event {
            ReadEvent::Chunk(chunk) => {
                let mut line: Vec<u8> = chunk;
                if line.len() > 0 && line[line.len() - 1] == '\n' as u8 {
                    let _ = line.pop();
                }
                if line.len() > 0 && line[line.len() - 1] == '\r' as u8 {
                    let _ = line.pop();
                }
                assert(line@ =~= without_newline(chunk@));
                if line.len() == 0 {
                    return StreamStep::ReadMore;
                }
                let line_id: u64 = self.line_id_counter;
                self.line_id_counter = line_id + 1;
                let (ts_micros, severity) = self.format.parse_ts_level(
                    line.as_slice(),
                    &mut self.stats,
                    self.fields.as_ref(),
                );
                StreamStep::Record(
                    RawRecord {
                        source_id: self.source_id,
                        line_id,
                        ts_micros,
                        severity,
                        bytes: RecordBytes::Owned(line),
                    },
                )
            },
            _ => {
                self.closed = true;
                StreamStep::Closed
            },
        }
    }
}

/// A read line is the text before its line end, be that a newline or a carriage
/// return and a newline; the last line may have none.
pub proof fn law_line_ends_are_taken_off(t: Seq<u8>)
    requires
        t.len() > 0 ==> t[t.len() - 1] != '\n' as u8 && t[t.len() - 1] != '\r' as u8,
    ensures
        without_newline(t) == t,
        without_newline(t + seq!['\n' as u8]) == t,
        without_newline(t + seq!['\r' as u8, '\n' as u8]) == t,
{
    let a = t + seq!['\n' as u8];
    let b = t + seq!['\r' as u8, '\n' as u8];
    assert(a.drop_last() =~= t);
    assert(b.drop_last() =~= t + seq!['\r' as u8]);
    assert(b.drop_last().drop_last() =~= t);
}

/// A line of a stream is a record with its bytes, and with the time and the
/// severity that its format reads in it.
pub proof fn law_line_is_read_by_its_format(line: Seq<u8>, line_id: u64, how: Reading)
    ensures
        ({
            let rec = owned_record(line, line_id, how);
            let read = how.format.reading(line, file::fields_ref(&how.fields));
            &&& rec.bytes == Payload::Owned(line)
            &&& rec.line_id == line_id
            &&& rec.source_id == how.source_id
            &&& rec.severity == read.1
            &&& read.0 matches TsOutcome::Timed(t) ==> rec.ts_micros == t
            &&& !(read.0 is Timed) ==> rec.ts_micros == i64::MIN
        }),
{
}

} // verus!
