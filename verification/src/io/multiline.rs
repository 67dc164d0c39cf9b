//! Multi-line record assembler.
//!
//! Wraps any [`RecordProducer`] and folds continuation lines into the record
//! before them. What a continuation line is, the format says. Only records
//! that own their bytes can be tested here; a span inside a file is resolved
//! by the engine, after this step, so such records pass through unfolded.

use vstd::prelude::*;

use crate::engine;
use crate::engine::format::LogFormat;
use crate::engine::record::{Payload, RawRecord, RecordBytes, RecordView};
use crate::io::RecordProducer;
use crate::scan;

verus! {

/// A record that continues the one before it.
pub open spec fn continues(format: LogFormat, rec: RecordView) -> bool {
    match rec.bytes {
        Payload::Owned(b) => format.continues(b),
        _ => false,
    }
}

/// The bytes that a payload holds itself.
pub open spec fn owned_part(p: Payload) -> Seq<u8> {
    match p {
        Payload::Owned(b) => b,
        _ => Seq::empty(),
    }
}

/// The second span starts right after the first and one byte, the newline.
pub open spec fn adjacent(head: Payload, next: Payload) -> bool {
    match (head, next) {
        (
            Payload::FileRef { source_id: hs, offset: ho, len: hl },
            Payload::FileRef { source_id: ns, offset: no, len: nl },
        ) => hs == ns && ho + hl + 1 == no,
        _ => false,
    }
}

/// Two payloads as one: adjacent spans become one span, anything else is put
/// together as owned bytes with a newline between.
pub open spec fn joined_bytes(head: Payload, next: Payload) -> Payload {
    match (head, next) {
        (
            Payload::FileRef { source_id, offset, len },
            Payload::FileRef { source_id: ns, offset: no, len: nl },
        ) if adjacent(head, next) => Payload::FileRef {
            source_id,
            offset,
            len: (len + 1 + nl) as u32,
        },
        _ => Payload::Owned(owned_part(head).push('\n' as u8) + owned_part(next)),
    }
}

/// A record that took in the one after it.
pub open spec fn joined(head: RecordView, next: RecordView) -> RecordView {
    RecordView { bytes: joined_bytes(head.bytes, next.bytes), ..head }
}

/// Fold `next` into `head`. A span that grows has to keep to its length's
/// range.
pub fn merge_into(head: &mut RawRecord, next: RawRecord)
    requires
        match (old(head).bytes, next.bytes) {
            (
                RecordBytes::FileRef { source_id: hs, offset: ho, len: hl },
                RecordBytes::FileRef { source_id: ns, offset: no, len: nl },
            ) => adjacent(old(head).bytes@, next.bytes@) ==> hl + 1 + nl <= u32::MAX,
            _ => true,
        },
    ensures
        final(head)@ == joined(old(head)@, next@),
{
    if let RecordBytes::FileRef { source_id: hs, offset: ho, len: hl } = head.bytes {
        if let RecordBytes::FileRef { source_id: ns, offset: no, len: nl } = next.bytes {
            if hs == ns && ho < no && no - ho == hl as u64 + 1 {
                head.bytes = RecordBytes::FileRef { source_id: hs, offset: ho, len: hl + 1 + nl };
                return ;
            }
        }
    }
    let mut out: Vec<u8> = Vec::new();
    match &head.bytes {
        RecordBytes::Owned(b) => scan::append(&mut out, b.as_slice()),
        _ => {},
    }
    out.push('\n' as u8);
    match &next.bytes {
        RecordBytes::Owned(b) => scan::append(&mut out, b.as_slice()),
        _ => {},
    }
    assert(out@ =~= owned_part(head.bytes@).push('\n' as u8) + owned_part(next.bytes@));
    head.bytes = RecordBytes::Owned(out);
}

/// A record after it took in the continuations that follow it, and what is
/// left after those.
pub open spec fn absorbed(format: LogFormat, head: RecordView, rest: Seq<RecordView>) -> (
    RecordView,
    Seq<RecordView>,
)
    decreases rest.len(),
{
    if rest.len() > 0 && continues(format, rest[0]) {
        absorbed(format, joined(head, rest[0]), rest.skip(1))
    } else {
        (head, rest)
    }
}

pub proof fn lemma_absorbed_shrinks(format: LogFormat, head: RecordView, rest: Seq<RecordView>)
    ensures
        absorbed(format, head, rest).1.len() <= rest.len(),
    decreases rest.len(),
{
    if rest.len() > 0 && continues(format, rest[0]) {
        lemma_absorbed_shrinks(format, joined(head, rest[0]), rest.skip(1));
    }
}

/// Some records with their continuations folded in. The first one is kept
/// even where it looks like a continuation: there is nothing before it.
pub open spec fn folded(format: LogFormat, recs: Seq<RecordView>) -> Seq<RecordView>
    decreases recs.len(),
{
    proof {
        lemma_absorbed_shrinks(format, recs[0], recs.skip(1));
    }
    if recs.len() == 0 {
        Seq::empty()
    } else {
        let (head, rest) = absorbed(format, recs[0], recs.skip(1));
        seq![head] + folded(format, rest)
    }
}

/// NDJSON has no continuation lines: nothing is folded.
pub proof fn law_ndjson_is_never_folded(recs: Seq<RecordView>)
    ensures
        folded(LogFormat::Ndjson, recs) =~= recs,
    decreases recs.len(),
{
    if recs.len() > 0 {
        law_ndjson_is_never_folded(recs.skip(1));
        assert(recs =~= seq![recs[0]] + recs.skip(1));
    }
}

/// The text of some records, line after line.
pub open spec fn text_of(recs: Seq<RecordView>) -> Seq<u8>
    decreases recs.len(),
{
    if recs.len() == 0 {
        Seq::empty()
    } else if recs.len() == 1 {
        owned_part(recs[0].bytes)
    } else {
        owned_part(recs[0].bytes).push('\n' as u8) + text_of(recs.skip(1))
    }
}

pub open spec fn all_owned(recs: Seq<RecordView>) -> bool {
    forall|i: int| 0 <= i < recs.len() ==> (#[trigger] recs[i]).bytes is Owned
}

proof fn lemma_absorbed_text(format: LogFormat, head: RecordView, rest: Seq<RecordView>)
    requires
        head.bytes is Owned,
        all_owned(rest),
    ensures
        absorbed(format, head, rest).0.bytes is Owned,
        all_owned(absorbed(format, head, rest).1),
        text_of(seq![absorbed(format, head, rest).0] + absorbed(format, head, rest).1)
            =~= text_of(seq![head] + rest),
    decreases rest.len(),
{
    if rest.len() > 0 && continues(format, rest[0]) {
        let h = joined(head, rest[0]);
        let after = rest.skip(1);
        lemma_absorbed_text(format, h, after);
        let long = seq![head] + rest;
        let short = seq![h] + after;
        assert(long.skip(1) =~= rest);
        assert(short.skip(1) =~= after);
        if after.len() == 0 {
            assert(text_of(rest) == owned_part(rest[0].bytes));
        } else {
            assert(text_of(rest) == owned_part(rest[0].bytes).push('\n' as u8) + text_of(after));
        }
        assert(text_of(short) =~= text_of(long));
    }
}

/// Folding loses no text: the lines of the folded records are the lines that
/// came in.
pub proof fn law_folding_keeps_the_text(format: LogFormat, recs: Seq<RecordView>)
    requires
        all_owned(recs),
    ensures
        all_owned(folded(format, recs)),
        text_of(folded(format, recs)) =~= text_of(recs),
    decreases recs.len(),
{
    if recs.len() > 0 {
        let first = recs[0];
        let tail = recs.skip(1);
        let (head, rest) = absorbed(format, first, tail);
        lemma_absorbed_shrinks(format, first, tail);
        lemma_absorbed_text(format, first, tail);
        law_folding_keeps_the_text(format, rest);
        let out = folded(format, recs);
        assert(out.skip(1) =~= folded(format, rest));
        assert(recs =~= seq![first] + tail);
        assert((seq![head] + rest).skip(1) =~= rest);
        assert(rest.len() == 0 <==> folded(format, rest).len() == 0);
        assert forall|i: int| 0 <= i < out.len() implies (#[trigger] out[i]).bytes is Owned by {
            if i > 0 {
                assert(out[i] == folded(format, rest)[i - 1]);
            }
        }
    }
}

/// Where the continuations from index `i` on end.
pub open spec fn group_end(format: LogFormat, recs: Seq<RecordView>, i: int) -> int
    decreases recs.len() - i,
{
    if 0 <= i < recs.len() && continues(format, recs[i]) {
        group_end(format, recs, i + 1)
    } else {
        i
    }
}

/// The indices of the records that are not folded into one before them, from a
/// first one at `i` on.
pub open spec fn heads(format: LogFormat, recs: Seq<RecordView>, i: int) -> Seq<int>
    decreases recs.len() - i,
{
    proof {
        lemma_group_end(format, recs, i + 1);
    }
    if !(0 <= i < recs.len()) {
        Seq::empty()
    } else {
        seq![i] + heads(format, recs, group_end(format, recs, i + 1))
    }
}

pub proof fn lemma_group_end(format: LogFormat, recs: Seq<RecordView>, i: int)
    ensures
        group_end(format, recs, i) >= i,
        i <= recs.len() ==> group_end(format, recs, i) <= recs.len(),
        forall|k: int|
            i <= k < group_end(format, recs, i) ==> continues(format, #[trigger] recs[k]),
        0 <= group_end(format, recs, i) < recs.len() ==> !continues(
            format,
            recs[group_end(format, recs, i)],
        ),
    decreases recs.len() - i,
{
    if 0 <= i < recs.len() && continues(format, recs[i]) {
        lemma_group_end(format, recs, i + 1);
    }
}

/// A record with the text of the records from `i` up to `e`.
pub open spec fn group(recs: Seq<RecordView>, i: int, e: int) -> RecordView {
    RecordView { bytes: Payload::Owned(text_of(recs.subrange(i, e))), ..recs[i] }
}

/// One more record puts a newline and its bytes behind the text.
proof fn lemma_text_of_push(recs: Seq<RecordView>, rec: RecordView)
    requires
        recs.len() > 0,
    ensures
        text_of(recs.push(rec)) =~= text_of(recs).push('\n' as u8) + owned_part(rec.bytes),
    decreases recs.len(),
{
    let all = recs.push(rec);
    assert(all[0] == recs[0]);
    assert(text_of(all) == owned_part(recs[0].bytes).push('\n' as u8) + text_of(all.skip(1)));
    if recs.len() > 1 {
        assert(all.skip(1) =~= recs.skip(1).push(rec));
        lemma_text_of_push(recs.skip(1), rec);
        assert(text_of(recs) == owned_part(recs[0].bytes).push('\n' as u8) + text_of(
            recs.skip(1),
        ));
    } else {
        assert(all.skip(1) =~= seq![rec]);
        assert(text_of(seq![rec]) == owned_part(rec.bytes));
    }
}

proof fn lemma_absorbed_group(format: LogFormat, recs: Seq<RecordView>, i: int, j: int)
    requires
        all_owned(recs),
        0 <= i < j <= recs.len(),
    ensures
        absorbed(format, group(recs, i, j), recs.skip(j)) == (
            group(recs, i, group_end(format, recs, j)),
            recs.skip(group_end(format, recs, j)),
        ),
    decreases recs.len() - j,
{
    if j < recs.len() && continues(format, recs[j]) {
        let rest = recs.skip(j);
        assert(rest[0] == recs[j]);
        assert(rest.skip(1) =~= recs.skip(j + 1));
        assert(recs.subrange(i, j + 1) =~= recs.subrange(i, j).push(recs[j]));
        lemma_text_of_push(recs.subrange(i, j), recs[j]);
        assert(joined(group(recs, i, j), recs[j]) == group(recs, i, j + 1));
        lemma_absorbed_group(format, recs, i, j + 1);
    } else if j < recs.len() {
        assert(recs.skip(j)[0] == recs[j]);
    }
}

/// Folding gives one record per head, in order: the first record, and every
/// later one that is no continuation. It keeps what the head says, and its
/// bytes are the head's and those of the continuations right behind it, with a
/// newline between two.
pub proof fn law_one_record_per_head(format: LogFormat, recs: Seq<RecordView>, i: int)
    requires
        all_owned(recs),
        0 <= i <= recs.len(),
    ensures
        folded(format, recs.skip(i)).len() == heads(format, recs, i).len(),
        forall|k: int|
            0 <= k < heads(format, recs, i).len() ==> #[trigger] folded(format, recs.skip(i))[k]
                == group(
                recs,
                heads(format, recs, i)[k],
                group_end(format, recs, heads(format, recs, i)[k] + 1),
            ),
        forall|j: int|
            i <= j < recs.len() ==> (heads(format, recs, i).contains(j) <==> j == i || !continues(
                format,
                #[trigger] recs[j],
            )),
    decreases recs.len() - i,
{
    if i < recs.len() {
        let rest = recs.skip(i);
        let e = group_end(format, recs, i + 1);
        lemma_group_end(format, recs, i + 1);
        assert(rest[0] == recs[i]);
        assert(rest.skip(1) =~= recs.skip(i + 1));
        assert(recs.subrange(i, i + 1) =~= seq![recs[i]]);
        assert(recs[i].bytes is Owned);
        assert(text_of(seq![recs[i]]) == owned_part(recs[i].bytes));
        assert(group(recs, i, i + 1) == recs[i]);
        lemma_absorbed_group(format, recs, i, i + 1);
        law_one_record_per_head(format, recs, e);
        let tail = folded(format, recs.skip(e));
        let later = heads(format, recs, e);
        let all = heads(format, recs, i);
        assert(folded(format, rest) =~= seq![group(recs, i, e)] + tail);
        assert(all =~= seq![i] + later);
        assert forall|k: int| 0 <= k < all.len() implies #[trigger] folded(format, rest)[k] == group(
            recs,
            all[k],
            group_end(format, recs, all[k] + 1),
        ) by {
            if k > 0 {
                assert(folded(format, rest)[k] == tail[k - 1]);
                assert(all[k] == later[k - 1]);
            }
        }
        assert forall|j: int| i <= j < recs.len() implies (all.contains(j) <==> j == i
            || !continues(format, #[trigger] recs[j])) by {
            lemma_heads_from(format, recs, e);
            if all.contains(j) && j != i {
                let k = choose|k: int| 0 <= k < all.len() && all[k] == j;
                assert(later[k - 1] == j);
                assert(later.contains(j));
            }
            if j == i {
                assert(all[0] == i);
            }
            if later.contains(j) {
                let k = choose|k: int| 0 <= k < later.len() && later[k] == j;
                assert(all[k + 1] == j);
            }
        }
    } else {
        assert(recs.skip(i) =~= Seq::empty());
    }
}

proof fn lemma_heads_from(format: LogFormat, recs: Seq<RecordView>, i: int)
    ensures
        forall|k: int| 0 <= k < heads(format, recs, i).len() ==> #[trigger] heads(format, recs, i)[k] >= i,
    decreases recs.len() - i,
{
    if 0 <= i < recs.len() {
        lemma_group_end(format, recs, i + 1);
        let e = group_end(format, recs, i + 1);
        lemma_heads_from(format, recs, e);
        let all = heads(format, recs, i);
        assert forall|k: int| 0 <= k < all.len() implies #[trigger] all[k] >= i by {
            if k > 0 {
                assert(all[k] == heads(format, recs, e)[k - 1]);
            }
        }
    }
}

pub struct MultiLineProducer<P: RecordProducer> {
    inner: P,
    format: LogFormat,
    pending: Option<RawRecord>,
    done: bool,
}

impl<P: RecordProducer> MultiLineProducer<P> {
    /// Fold the continuation lines among the records of a producer.
    pub fn new(inner: P, format: LogFormat) -> (r: Self)
        requires
            inner.wf(),
        ensures
            r.wf(),
            r.remaining() == folded(format, inner.remaining()),
            r.live() == inner.live(),
    {
        MultiLineProducer { inner, format, pending: None, done: false }
    }
}

impl<P: RecordProducer> RecordProducer for MultiLineProducer<P> {
    closed spec fn wf(&self) -> bool {
        self.inner.wf()
    }

    closed spec fn remaining(&self) -> Seq<RecordView> {
        if self.done {
            Seq::empty()
        } else {
            match self.pending {
                Some(p) => folded(self.format, seq![p@] + self.inner.remaining()),
                None => folded(self.format, self.inner.remaining()),
            }
        }
    }

    closed spec fn live(&self) -> bool {
        self.inner.live() && !self.done
    }

    fn next(&mut self) -> (r: Option<RawRecord>) {
        if self.done {
            return None;
        }
        let ghost all = self.remaining();
        let ghost ahead = match &self.pending {
            Some(p) => seq![p@] + self.inner.remaining(),
            None => self.inner.remaining(),
        };
        let mut pending: Option<RawRecord> = None;
        core::mem::swap(&mut self.pending, &mut pending);
        if pending.is_none() {
            pending = self.inner.next();
        }
        let mut head: RawRecord = match pending {
            Some(p) => p,
            None => {
                self.done = true;
                return None;
            },
        };
        proof {
            assert(ahead[0] == head@);
            assert(ahead.skip(1) =~= self.inner.remaining());
        }
        let ghost whole = absorbed(self.format, head@, self.inner.remaining());
        loop
            invariant
                self.inner.wf(),
                !self.done,
                self.pending is None,
                self.format == old(self).format,
                all == old(self).remaining(),
                whole == absorbed(self.format, head@, self.inner.remaining()),
                all == seq![whole.0] + folded(self.format, whole.1),
            decreases self.inner.remaining().len(),
        {
            let ghost rest = self.inner.remaining();
            let next: RawRecord = match self.inner.next() {
                Some(r) => r,
                None => {
                    self.done = true;
                    assert(all.skip(1) =~= self.remaining());
                    return Some(head);
                },
            };
            let is_cont: bool = match &next.bytes {
                RecordBytes::Owned(b) => self.format.is_continuation(b.as_slice()),
                _ => false,
            };
            if !is_cont {
                self.pending = Some(next);
                proof {
                    assert(rest =~= seq![rest[0]] + rest.skip(1));
                    assert(all.skip(1) =~= self.remaining());
                }
                return Some(head);
            }
            merge_into(&mut head, next);
        }
    }

    fn is_live(&self) -> (r: bool) {
        self.inner.is_live() && !self.done
    }
}

/// Two spans of a file with one byte between become the span that covers them
/// and that byte. Owned bytes are put together with a newline between.
pub proof fn law_joined_payload_covers_both(
    sources: Seq<&[u8]>,
    source_id: u32,
    offset: u64,
    len: u32,
    more: u32,
    head: Seq<u8>,
    next: Seq<u8>,
)
    requires
        source_id < sources.len(),
        len + 1 + more <= u32::MAX,
        offset + len + 1 + more <= sources[source_id as int]@.len(),
        sources[source_id as int]@.len() <= u64::MAX,
    ensures
        ({
            let first = Payload::FileRef { source_id, offset, len };
            let second = Payload::FileRef {
                source_id,
                offset: (offset + len + 1) as u64,
                len: more,
            };
            engine::payload_bytes(sources, joined_bytes(first, second)) == engine::payload_bytes(
                sources,
                first,
            ) + seq![sources[source_id as int]@[offset + len]] + engine::payload_bytes(
                sources,
                second,
            )
        }),
        joined_bytes(Payload::Owned(head), Payload::Owned(next)) == Payload::Owned(
            head + seq!['\n' as u8] + next,
        ),
{
    let b = sources[source_id as int]@;
    let end = offset + len;
    assert(b.subrange(offset as int, end + 1 + more) =~= b.subrange(offset as int, end) + seq![
        b[end],
    ] + b.subrange(end + 1, end + 1 + more));
    assert(head.push('\n' as u8) + next =~= head + seq!['\n' as u8] + next);
}

/// A line of its own bytes continues a record where its format says so. A span
/// of a file stands by itself.
pub proof fn law_only_lines_continue(format: LogFormat, rec: RecordView, line: Seq<u8>)
    ensures
        continues(format, RecordView { bytes: Payload::Owned(line), ..rec }) <==> format.continues(
            line,
        ),
        rec.bytes is FileRef ==> !continues(format, rec),
{
}

} // verus!
