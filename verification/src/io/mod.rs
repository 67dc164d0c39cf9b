//! IO layer: producers of raw records.
//!
//! A [`RecordProducer`] is a synchronous, blocking source of raw records.

pub mod compressed;
pub mod file;
pub mod json_array;
pub mod merge;
pub mod multiline;
pub mod stream;
pub mod tail;

use vstd::prelude::*;

use crate::engine::record::{RawRecord, RecordView};

verus! {

pub trait RecordProducer {
    /// The producer is in a state it can go on from.
    open spec fn wf(&self) -> bool {
        true
    }

    /// The records it has yet to give, in order. A producer that says nothing
    /// of them leaves them open.
    open spec fn remaining(&self) -> Seq<RecordView> {
        arbitrary()
    }

    /// Records may continue to arrive after a transient `None`.
    open spec fn live(&self) -> bool {
        arbitrary()
    }

    /// Blocking pull of the next record. `None` at the end of a static source
    /// or of a closed stream.
    fn next(&mut self) -> (r: Option<RawRecord>)
        requires
            old(self).wf(),
        ensures
            final(self).wf(),
            match r {
                Some(rec) => {
                    &&& old(self).remaining().len() > 0
                    &&& rec@ == old(self).remaining()[0]
                    &&& final(self).remaining() == old(self).remaining().skip(1)
                },
                None => old(self).remaining().len() == 0 && final(self).remaining().len() == 0,
            },
    ;

    /// True if records may continue to arrive after a transient `None`.
    fn is_live(&self) -> (r: bool)
        ensures
            r == self.live(),
    ;
}

/// Background-friendly producer, one that can be moved into a worker thread.
pub trait SendableProducer: RecordProducer + Send {

}

impl<T: RecordProducer + Send> SendableProducer for T {

}

} // verus!
