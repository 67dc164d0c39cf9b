//! The record contract between IO and engine.
//!
//! Bytes never travel as a borrowed slice. They are either owned by the record
//! (stream side) or named by a span inside their source (file side), resolved
//! against the engine's sources by `source_id`.

use vstd::prelude::*;

pub mod severity;

verus! {

/// Sentinel for records that have no parseable timestamp, whether from a file
/// or from a stream. Such records go into the untimed bucket and are excluded
/// from the time axis.
pub const TS_UNTIMED: i64 = i64::MIN;

#[derive(Debug, Clone)]
pub enum RecordBytes {
    /// Owned bytes: a stream line, or a multi-line record assembled from
    /// non-contiguous spans.
    Owned(Vec<u8>),
    /// One contiguous span inside its source. A multi-line record whose
    /// continuation lines are adjacent in the file gets a `len` that covers
    /// the whole block.
    FileRef { source_id: u32, offset: u64, len: u32 },
    /// Several spans inside one source, joined on ingest.
    FileRefMulti { source_id: u32, spans: Vec<(u64, u32)> },
}

#[derive(Debug, Clone)]
pub struct RawRecord {
    pub source_id: u32,
    /// Position in the producer's output: arrival order for one source, merged
    /// order for several.
    pub line_id: u64,
    /// Microseconds since the Unix epoch, or `TS_UNTIMED`.
    pub ts_micros: i64,
    /// One of the `severity` constants.
    pub severity: u8,
    pub bytes: RecordBytes,
}

/// Where a record's bytes are, as plain values.
pub enum Payload {
    Owned(Seq<u8>),
    FileRef { source_id: u32, offset: u64, len: u32 },
    FileRefMulti { source_id: u32, spans: Seq<(u64, u32)> },
}

/// A record as plain values.
pub struct RecordView {
    pub source_id: u32,
    pub line_id: u64,
    pub ts_micros: i64,
    pub severity: u8,
    pub bytes: Payload,
}

impl View for RecordBytes {
    type V = Payload;

    open spec fn view(&self) -> Payload {
        match *self {
            RecordBytes::Owned(b) => Payload::Owned(b@),
            RecordBytes::FileRef { source_id, offset, len } => Payload::FileRef {
                source_id,
                offset,
                len,
            },
            RecordBytes::FileRefMulti { source_id, spans } => Payload::FileRefMulti {
                source_id,
                spans: spans@,
            },
        }
    }
}

impl View for RawRecord {
    type V = RecordView;

    open spec fn view(&self) -> RecordView {
        RecordView {
            source_id: self.source_id,
            line_id: self.line_id,
            ts_micros: self.ts_micros,
            severity: self.severity,
            bytes: self.bytes@,
        }
    }
}

} // verus!
