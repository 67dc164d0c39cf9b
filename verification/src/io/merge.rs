//! MergeProducer: k-way merge of record producers by timestamp.
//!
//! - Single source (no merge): `line_id` is arrival order, which is file order.
//! - Merged: `line_id` is the position in the merged stream.
//!
//! Rendering always goes by `line_id`, so the merge assigns it anew. Untimed
//! records sort to the front: they group at the start instead of scattering.

use vstd::prelude::*;
use vstd::multiset::Multiset;

use crate::engine::record::{RawRecord, RecordView};
use crate::io::RecordProducer;

verus! {

/// Among the first `n` streams, the one whose next record is the earliest. Of
/// equally early ones the first.
pub open spec fn earliest(streams: Seq<Seq<RecordView>>, n: int) -> Option<int>
    decreases n,
{
    if n <= 0 {
        None
    } else {
        let before = earliest(streams, n - 1);
        if streams[n - 1].len() == 0 {
            before
        } else {
            match before {
                None => Some(n - 1),
                Some(j) => if streams[n - 1][0].ts_micros < streams[j][0].ts_micros {
                    Some(n - 1)
                } else {
                    Some(j)
                },
            }
        }
    }
}

/// The earliest stream is one that has records, comes at or before all others,
/// and strictly before those with a lower index.
pub proof fn lemma_earliest(streams: Seq<Seq<RecordView>>, n: int)
    requires
        0 <= n <= streams.len(),
    ensures
        match earliest(streams, n) {
            None => forall|k: int| 0 <= k < n ==> (#[trigger] streams[k]).len() == 0,
            Some(j) => {
                &&& 0 <= j < n
                &&& streams[j].len() > 0
                &&& forall|k: int|
                    0 <= k < n && (#[trigger] streams[k]).len() > 0 ==> streams[j][0].ts_micros
                        <= streams[k][0].ts_micros
                &&& forall|k: int|
                    0 <= k < j && (#[trigger] streams[k]).len() > 0 ==> streams[j][0].ts_micros
                        < streams[k][0].ts_micros
            },
        },
    decreases n,
{
    if n > 0 {
        lemma_earliest(streams, n - 1);
    }
}

/// Records in all streams together.
pub open spec fn total(streams: Seq<Seq<RecordView>>) -> nat
    decreases streams.len(),
{
    if streams.len() == 0 {
        0
    } else {
        total(streams.drop_last()) + streams.last().len()
    }
}

/// The streams after the next record of one was taken.
pub open spec fn taken(streams: Seq<Seq<RecordView>>, i: int) -> Seq<Seq<RecordView>> {
    streams.update(i, streams[i].skip(1))
}

pub proof fn lemma_total_taken(streams: Seq<Seq<RecordView>>, i: int)
    requires
        0 <= i < streams.len(),
        streams[i].len() > 0,
    ensures
        total(taken(streams, i)) == total(streams) - 1,
    decreases streams.len(),
{
    let after = taken(streams, i);
    if i == streams.len() - 1 {
        assert(after.drop_last() =~= streams.drop_last());
    } else {
        assert(after.drop_last() =~= taken(streams.drop_last(), i));
        lemma_total_taken(streams.drop_last(), i);
    }
}

proof fn lemma_total_empty(streams: Seq<Seq<RecordView>>)
    requires
        forall|k: int| 0 <= k < streams.len() ==> (#[trigger] streams[k]).len() == 0,
    ensures
        total(streams) == 0,
    decreases streams.len(),
{
    if streams.len() > 0 {
        assert(streams[streams.len() - 1].len() == 0);
        assert forall|k: int| 0 <= k < streams.drop_last().len() implies (
        #[trigger] streams.drop_last()[k]).len() == 0 by {
            assert(streams[k].len() == 0);
        }
        lemma_total_empty(streams.drop_last());
    }
}

/// A record under another line id.
pub open spec fn numbered(rec: RecordView, line_id: int) -> RecordView {
    RecordView { line_id: line_id as u64, ..rec }
}

/// The merge of some streams, numbered from `line_id` on: always the earliest
/// next record first.
pub open spec fn merged(streams: Seq<Seq<RecordView>>, line_id: int) -> Seq<RecordView>
    decreases total(streams),
{
    proof {
        lemma_earliest(streams, streams.len() as int);
        if let Some(i) = earliest(streams, streams.len() as int) {
            lemma_total_taken(streams, i);
        }
    }
    match earliest(streams, streams.len() as int) {
        None => Seq::empty(),
        Some(i) => seq![numbered(streams[i][0], line_id)] + merged(taken(streams, i), line_id + 1),
    }
}

/// The merge gives as many records as the streams hold, and numbers them
/// consecutively.
pub proof fn law_merge_numbers_consecutively(streams: Seq<Seq<RecordView>>, line_id: int)
    ensures
        merged(streams, line_id).len() == total(streams),
        forall|k: int|
            0 <= k < merged(streams, line_id).len() ==> (#[trigger] merged(
                streams,
                line_id,
            )[k]).line_id == (line_id + k) as u64,
    decreases total(streams),
{
    let n = streams.len() as int;
    lemma_earliest(streams, n);
    match earliest(streams, n) {
        None => {
            lemma_total_empty(streams);
        },
        Some(i) => {
            lemma_total_taken(streams, i);
            let rest = merged(taken(streams, i), line_id + 1);
            law_merge_numbers_consecutively(taken(streams, i), line_id + 1);
            assert forall|k: int| 0 <= k < merged(streams, line_id).len() implies (#[trigger] merged(
                streams,
                line_id,
            )[k]).line_id == (line_id + k) as u64 by {
                if k > 0 {
                    assert(merged(streams, line_id)[k] == rest[k - 1]);
                }
            }
        },
    }
}

/// Records in order of time.
pub open spec fn in_time_order(s: Seq<RecordView>) -> bool {
    forall|i: int, j: int| 0 <= i <= j < s.len() ==> s[i].ts_micros <= s[j].ts_micros
}

proof fn lemma_merged_bound(streams: Seq<Seq<RecordView>>, line_id: int, bound: i64)
    requires
        forall|i: int| 0 <= i < streams.len() ==> in_time_order(#[trigger] streams[i]),
        forall|i: int|
            0 <= i < streams.len() && (#[trigger] streams[i]).len() > 0 ==> bound
                <= streams[i][0].ts_micros,
    ensures
        forall|k: int|
            0 <= k < merged(streams, line_id).len() ==> bound <= (#[trigger] merged(
                streams,
                line_id,
            )[k]).ts_micros,
    decreases total(streams),
{
    let n = streams.len() as int;
    lemma_earliest(streams, n);
    if let Some(i) = earliest(streams, n) {
        lemma_total_taken(streams, i);
        let after = taken(streams, i);
        assert forall|j: int| 0 <= j < after.len() implies in_time_order(#[trigger] after[j]) by {
            lemma_taken_in_order(streams, i, j);
        }
        assert forall|j: int| 0 <= j < after.len() && (#[trigger] after[j]).len() > 0 implies bound
            <= after[j][0].ts_micros by {
            assert(in_time_order(streams[j]));
            if j == i {
                assert(after[j][0] == streams[j][1]);
                assert(streams[j][0].ts_micros <= streams[j][1].ts_micros);
            }
        }
        lemma_merged_bound(after, line_id + 1, bound);
        let rest = merged(after, line_id + 1);
        assert forall|k: int| 0 <= k < merged(streams, line_id).len() implies bound
            <= (#[trigger] merged(streams, line_id)[k]).ts_micros by {
            if k > 0 {
                assert(merged(streams, line_id)[k] == rest[k - 1]);
            }
        }
    }
}

proof fn lemma_taken_in_order(streams: Seq<Seq<RecordView>>, i: int, j: int)
    requires
        0 <= i < streams.len(),
        0 <= j < streams.len(),
        streams[i].len() > 0,
        forall|k: int| 0 <= k < streams.len() ==> in_time_order(#[trigger] streams[k]),
    ensures
        in_time_order(taken(streams, i)[j]),
{
    assert(in_time_order(streams[j]));
    if j == i {
        let s = streams[j];
        let t = taken(streams, i)[j];
        assert forall|a: int, b: int| 0 <= a <= b < t.len() implies t[a].ts_micros
            <= t[b].ts_micros by {
            assert(t[a] == s[a + 1] && t[b] == s[b + 1]);
        }
    }
}

/// The merge of streams that are each in order of time is in order of time.
pub proof fn law_merge_keeps_time_order(streams: Seq<Seq<RecordView>>, line_id: int)
    requires
        forall|i: int| 0 <= i < streams.len() ==> in_time_order(#[trigger] streams[i]),
    ensures
        in_time_order(merged(streams, line_id)),
    decreases total(streams),
{
    let n = streams.len() as int;
    lemma_earliest(streams, n);
    if let Some(i) = earliest(streams, n) {
        lemma_total_taken(streams, i);
        let after = taken(streams, i);
        assert forall|j: int| 0 <= j < after.len() implies in_time_order(#[trigger] after[j]) by {
            lemma_taken_in_order(streams, i, j);
        }
        let first = streams[i][0].ts_micros;
        assert forall|j: int| 0 <= j < after.len() && (#[trigger] after[j]).len() > 0 implies first
            <= after[j][0].ts_micros by {
            assert(in_time_order(streams[j]));
            if j == i {
                assert(after[j][0] == streams[j][1]);
                assert(streams[j][0].ts_micros <= streams[j][1].ts_micros);
            }
        }
        lemma_merged_bound(after, line_id + 1, first);
        law_merge_keeps_time_order(after, line_id + 1);
        let whole = merged(streams, line_id);
        let rest = merged(after, line_id + 1);
        assert forall|a: int, b: int| 0 <= a <= b < whole.len() implies whole[a].ts_micros
            <= whole[b].ts_micros by {
            if a > 0 {
                assert(whole[a] == rest[a - 1] && whole[b] == rest[b - 1]);
            } else if b > 0 {
                assert(whole[b] == rest[b - 1]);
            }
        }
    }
}

/// A record apart from its line id.
pub open spec fn unnumbered(rec: RecordView) -> RecordView {
    numbered(rec, 0)
}

/// Some records apart from their line ids and their order.
pub open spec fn bag(s: Seq<RecordView>) -> Multiset<RecordView> {
    s.map_values(|r: RecordView| unnumbered(r)).to_multiset()
}

/// All records of some streams.
pub open spec fn bag_of_all(streams: Seq<Seq<RecordView>>) -> Multiset<RecordView>
    decreases streams.len(),
{
    if streams.len() == 0 {
        Multiset::empty()
    } else {
        bag_of_all(streams.drop_last()).add(bag(streams.last()))
    }
}

proof fn lemma_bag_first(s: Seq<RecordView>)
    requires
        s.len() > 0,
    ensures
        bag(s) =~= bag(s.skip(1)).insert(unnumbered(s[0])),
{
    let f = |r: RecordView| unnumbered(r);
    let m = s.map_values(f);
    let t = s.skip(1).map_values(f);
    assert(m =~= seq![unnumbered(s[0])] + t);
    vstd::seq_lib::lemma_multiset_commutative(seq![unnumbered(s[0])], t);
    assert(seq![unnumbered(s[0])].to_multiset() =~= Multiset::empty().insert(unnumbered(s[0]))) by {
        seq![unnumbered(s[0])].to_multiset_ensures();
        let e = Seq::<RecordView>::empty();
        assert(seq![unnumbered(s[0])] =~= e.push(unnumbered(s[0])));
        e.to_multiset_ensures();
        assert(e.to_multiset() =~= Multiset::empty());
    }
}

proof fn lemma_bag_taken(streams: Seq<Seq<RecordView>>, i: int)
    requires
        0 <= i < streams.len(),
        streams[i].len() > 0,
    ensures
        bag_of_all(streams) =~= bag_of_all(taken(streams, i)).insert(unnumbered(streams[i][0])),
    decreases streams.len(),
{
    let after = taken(streams, i);
    if i == streams.len() - 1 {
        assert(after.drop_last() =~= streams.drop_last());
        lemma_bag_first(streams[i]);
    } else {
        assert(after.drop_last() =~= taken(streams.drop_last(), i));
        lemma_bag_taken(streams.drop_last(), i);
    }
}

proof fn lemma_bag_empty(streams: Seq<Seq<RecordView>>)
    requires
        forall|k: int| 0 <= k < streams.len() ==> (#[trigger] streams[k]).len() == 0,
    ensures
        bag_of_all(streams) =~= Multiset::empty(),
    decreases streams.len(),
{
    if streams.len() > 0 {
        let last = streams.last();
        assert(streams[streams.len() - 1].len() == 0);
        assert forall|k: int| 0 <= k < streams.drop_last().len() implies (
        #[trigger] streams.drop_last()[k]).len() == 0 by {
            assert(streams[k].len() == 0);
        }
        lemma_bag_empty(streams.drop_last());
        assert(last.map_values(|r: RecordView| unnumbered(r)) =~= Seq::<RecordView>::empty());
        Seq::<RecordView>::empty().to_multiset_ensures();
        assert(bag(last) =~= Multiset::empty());
    }
}

/// The merge neither loses nor invents a record.
pub proof fn law_merge_keeps_every_record(streams: Seq<Seq<RecordView>>, line_id: int)
    ensures
        bag(merged(streams, line_id)) =~= bag_of_all(streams),
    decreases total(streams),
{
    let n = streams.len() as int;
    lemma_earliest(streams, n);
    let whole = merged(streams, line_id);
    match earliest(streams, n) {
        None => {
            lemma_bag_empty(streams);
            assert(whole.map_values(|r: RecordView| unnumbered(r)) =~= Seq::<RecordView>::empty());
            Seq::<RecordView>::empty().to_multiset_ensures();
            assert(bag(whole) =~= Multiset::empty());
        },
        Some(i) => {
            lemma_total_taken(streams, i);
            law_merge_keeps_every_record(taken(streams, i), line_id + 1);
            lemma_bag_taken(streams, i);
            lemma_bag_first(whole);
            assert(whole.skip(1) =~= merged(taken(streams, i), line_id + 1));
        },
    }
}

/// Which stream each record of the merge comes from.
pub open spec fn picks(streams: Seq<Seq<RecordView>>) -> Seq<int>
    decreases total(streams),
{
    proof {
        lemma_earliest(streams, streams.len() as int);
        if let Some(i) = earliest(streams, streams.len() as int) {
            lemma_total_taken(streams, i);
        }
    }
    match earliest(streams, streams.len() as int) {
        None => Seq::empty(),
        Some(i) => seq![i] + picks(taken(streams, i)),
    }
}

/// How often a stream is among the first `k` picks.
pub open spec fn picked(p: Seq<int>, stream: int, k: int) -> nat
    decreases k,
{
    if k <= 0 {
        0
    } else {
        picked(p, stream, k - 1) + if p[k - 1] == stream {
            1nat
        } else {
            0
        }
    }
}

proof fn lemma_picked_behind(first: int, rest: Seq<int>, stream: int, k: int)
    requires
        0 <= k <= rest.len(),
    ensures
        picked(seq![first] + rest, stream, k + 1) == picked(rest, stream, k) + if first == stream {
            1nat
        } else {
            0
        },
    decreases k,
{
    let p = seq![first] + rest;
    if k > 0 {
        lemma_picked_behind(first, rest, stream, k - 1);
        assert(p[k] == rest[k - 1]);
    } else {
        assert(p[0] == first);
        assert(picked(p, stream, 0) == 0);
    }
}

/// The merge takes every record of every stream exactly once, unchanged but for
/// its line id, and each stream's records in their order: the n-th pick of a
/// stream is its n-th record, and a stream is picked as often as it has
/// records.
pub proof fn law_merge_takes_each_stream_in_order(
    streams: Seq<Seq<RecordView>>,
    line_id: int,
    k: int,
    stream: int,
)
    requires
        0 <= stream < streams.len(),
    ensures
        picks(streams).len() == merged(streams, line_id).len(),
        0 <= k < picks(streams).len() ==> {
            let i = picks(streams)[k];
            let n = picked(picks(streams), i, k);
            &&& 0 <= i < streams.len()
            &&& n < streams[i].len()
            &&& merged(streams, line_id)[k] == numbered(streams[i][n as int], line_id + k)
        },
        picked(picks(streams), stream, picks(streams).len() as int) == streams[stream].len(),
    decreases total(streams),
{
    let n = streams.len() as int;
    lemma_earliest(streams, n);
    if let Some(i) = earliest(streams, n) {
        lemma_total_taken(streams, i);
        let after = taken(streams, i);
        let rest = picks(after);
        let p = picks(streams);
        law_merge_takes_each_stream_in_order(after, line_id + 1, k - 1, stream);
        lemma_picked_behind(i, rest, stream, rest.len() as int);
        if 0 < k < p.len() {
            let j = rest[k - 1];
            assert(p[k] == j);
            lemma_picked_behind(i, rest, j, k - 1);
            assert(merged(streams, line_id)[k] == merged(after, line_id + 1)[k - 1]);
            if j == i {
                let m = picked(rest, j, k - 1) as int;
                assert(after[j][m] == streams[j][m + 1]);
            }
        } else if k == 0 {
            assert(p[0] == i);
        }
    }
}

/// Of records with equal timestamps, that of the stream with the lower index
/// comes first, where each stream is in order of time.
pub proof fn law_merge_breaks_ties_by_index(
    streams: Seq<Seq<RecordView>>,
    line_id: int,
    a: int,
    b: int,
)
    requires
        forall|i: int| 0 <= i < streams.len() ==> in_time_order(#[trigger] streams[i]),
        0 <= a < b < merged(streams, line_id).len(),
        merged(streams, line_id)[a].ts_micros == merged(streams, line_id)[b].ts_micros,
    ensures
        picks(streams).len() == merged(streams, line_id).len(),
        picks(streams)[a] <= picks(streams)[b],
    decreases total(streams),
{
    let n = streams.len() as int;
    lemma_earliest(streams, n);
    if let Some(i) = earliest(streams, n) {
        lemma_total_taken(streams, i);
        let after = taken(streams, i);
        law_merge_takes_each_stream_in_order(streams, line_id, b, i);
        let whole = merged(streams, line_id);
        let rest = merged(after, line_id + 1);
        if a > 0 {
            assert forall|j: int| 0 <= j < after.len() implies in_time_order(
                #[trigger] after[j],
            ) by {
                lemma_taken_in_order(streams, i, j);
            }
            assert(whole[a] == rest[a - 1] && whole[b] == rest[b - 1]);
            law_merge_breaks_ties_by_index(after, line_id + 1, a - 1, b - 1);
            assert(picks(streams)[a] == picks(after)[a - 1]);
            assert(picks(streams)[b] == picks(after)[b - 1]);
        } else {
            let j = picks(streams)[b];
            let m = picked(picks(streams), j, b) as int;
            assert(whole[0].ts_micros == streams[i][0].ts_micros);
            assert(picks(streams)[0] == i);
            if j < i {
                assert(in_time_order(streams[j]));
                assert(streams[j][0].ts_micros <= streams[j][m].ts_micros);
            }
        }
    }
}

pub struct MergeProducer<P: RecordProducer> {
    producers: Vec<P>,
    /// The next record of each producer, once the first were asked for.
    heads: Vec<Option<RawRecord>>,
    line_id_counter: u64,
    primed: bool,
}

/// What some producers have yet to give.
pub open spec fn streams_of<P: RecordProducer>(producers: Seq<P>) -> Seq<Seq<RecordView>> {
    Seq::new(producers.len(), |i: int| producers[i].remaining())
}

/// A record read ahead, and what follows it.
pub open spec fn with_head(head: Option<RawRecord>, rest: Seq<RecordView>) -> Seq<RecordView> {
    match head {
        Some(rec) => seq![rec@] + rest,
        None => rest,
    }
}

impl<P: RecordProducer> MergeProducer<P> {
    /// What the producers have yet to give, the records read ahead included.
    pub closed spec fn streams(self) -> Seq<Seq<RecordView>> {
        if self.primed {
            Seq::new(
                self.producers@.len(),
                |i: int| with_head(self.heads@[i], self.producers@[i].remaining()),
            )
        } else {
            streams_of(self.producers@)
        }
    }

    /// Merge some producers. Their records together have to fit a line id.
    pub fn new(producers: Vec<P>) -> (r: Self)
        requires
            forall|i: int| 0 <= i < producers@.len() ==> (#[trigger] producers@[i]).wf(),
            total(streams_of(producers@)) <= u64::MAX,
        ensures
            r.wf(),
            r.streams() == streams_of(producers@),
            r.remaining() == merged(streams_of(producers@), 0),
            r.live() == exists|i: int|
                0 <= i < producers@.len() && (#[trigger] producers@[i]).live(),
    {
        let r = MergeProducer { producers, heads: Vec::new(), line_id_counter: 0, primed: false };
        assert(r.producers@ == producers@);
        assert(r.live() == exists|i: int|
            0 <= i < r.producers@.len() && (#[trigger] r.producers@[i]).live());
        r
    }

    /// Read the first record of each producer ahead.
    fn prime(&mut self)
        requires
            old(self).wf(),
            !old(self).primed,
        ensures
            final(self).wf(),
            final(self).primed,
            final(self).streams() == old(self).streams(),
            final(self).line_id_counter == old(self).line_id_counter,
    {
        let ghost before = self.streams();
        let mut i: usize = 0;
        while i < self.producers.len()
            invariant
                i <= self.producers@.len(),
                self.producers@.len() == before.len(),
                self.heads@.len() == i,
                !self.primed,
                self.line_id_counter == old(self).line_id_counter,
                forall|k: int| 0 <= k < self.producers@.len() ==> (#[trigger] self.producers@[k]).wf(),
                forall|k: int|
                    i <= k < self.producers@.len() ==> (#[trigger] self.producers@[k]).remaining()
                        == before[k],
                forall|k: int|
                    0 <= k < i ==> {
                        &&& with_head(
                            #[trigger] self.heads@[k],
                            self.producers@[k].remaining(),
                        ) == before[k]
                        &&& self.heads@[k] is None ==> self.producers@[k].remaining().len() == 0
                    },
            decreases self.producers@.len() - i,
        {
            let ghost rest = self.producers@[i as int].remaining();
            let head: Option<RawRecord> = self.producers[i].next();
            proof {
                assert(with_head(head, self.producers@[i as int].remaining()) =~= rest) by {
                    if head is Some {
                        assert(rest =~= seq![rest[0]] + rest.skip(1));
                    }
                }
            }
            self.heads.push(head);
            i = i + 1;
        }
        self.primed = true;
        assert(self.streams() =~= before);
    }
}

impl<P: RecordProducer> RecordProducer for MergeProducer<P> {
    closed spec fn wf(&self) -> bool {
        &&& forall|i: int| 0 <= i < self.producers@.len() ==> (#[trigger] self.producers@[i]).wf()
        &&& if self.primed {
            &&& self.heads@.len() == self.producers@.len()
            &&& forall|i: int|
                0 <= i < self.heads@.len() && (#[trigger] self.heads@[i]) is None
                    ==> self.producers@[i].remaining().len() == 0
        } else {
            self.heads@.len() == 0
        }
        &&& self.line_id_counter + total(self.streams()) <= u64::MAX
    }

    closed spec fn remaining(&self) -> Seq<RecordView> {
        merged(self.streams(), self.line_id_counter as int)
    }

    closed spec fn live(&self) -> bool {
        exists|i: int| 0 <= i < self.producers@.len() && (#[trigger] self.producers@[i]).live()
    }

    fn next(&mut self) -> (r: Option<RawRecord>) {
        let ghost all = self.remaining();
        if !self.primed {
            self.prime();
        }
        let ghost streams = self.streams();
        let mut best: Option<usize> = None;
        let mut i: usize = 0;
        while i < self.heads.len()
            invariant
                i <= self.heads@.len(),
                self.heads@.len() == self.producers@.len(),
                self.primed,
                streams == self.streams(),
                match best {
                    Some(j) => j < i && self.heads@[j as int] is Some && earliest(
                        streams,
                        i as int,
                    ) == Some(j as int),
                    None => earliest(streams, i as int) is None,
                },
                forall|k: int|
                    0 <= k < self.heads@.len() && (#[trigger] self.heads@[k]) is None
                        ==> self.producers@[k].remaining().len() == 0,
            decreases self.heads@.len() - i,
        {
            proof {
                assert(streams[i as int] == with_head(
                    self.heads@[i as int],
                    self.producers@[i as int].remaining(),
                ));
            }
            if let Some(rec) = &self.heads[i] {
                match best {
                    None => {
                        best = Some(i);
                    },
                    Some(j) => {
                        if let Some(first) = &self.heads[j] {
                            if rec.ts_micros < first.ts_micros {
                                best = Some(i);
                            }
                        }
                    },
                }
            }
            i = i + 1;
        }
        proof {
            lemma_earliest(streams, streams.len() as int);
        }
        let at: usize = match best {
            None => {
                return None;
            },
            Some(j) => j,
        };
        let ghost rest = self.producers@[at as int].remaining();
        let mut slot: Option<RawRecord> = self.producers[at].next();
        proof {
            assert(with_head(slot, self.producers@[at as int].remaining()) =~= rest) by {
                if slot is Some {
                    assert(rest =~= seq![rest[0]] + rest.skip(1));
                }
            }
        }
        core::mem::swap(&mut self.heads[at], &mut slot);
        let line_id: u64 = self.line_id_counter;
        proof {
            lemma_total_taken(streams, at as int);
            assert(streams[at as int].skip(1) =~= rest);
            assert(self.streams() =~= taken(streams, at as int));
        }
        self.line_id_counter = line_id + 1;
        proof {
            assert(all.skip(1) =~= merged(taken(streams, at as int), line_id + 1));
        }
        match slot {
            Some(rec) => Some(RawRecord { line_id, ..rec }),
            None => None,
        }
    }

    fn is_live(&self) -> (r: bool) {
        let mut i: usize = 0;
        while i < self.producers.len()
            invariant
                i <= self.producers@.len(),
                forall|k: int| 0 <= k < i ==> !(#[trigger] self.producers@[k]).live(),
            decreases self.producers@.len() - i,
        {
            if self.producers[i].is_live() {
                return true;
            }
            i = i + 1;
        }
        false
    }
}

} // verus!
