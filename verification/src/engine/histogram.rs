//! Time histogram for the timeline pane.
//!
//! The visible time range is split into equal bins; each bin counts its
//! records by severity. Records without a timestamp are in no bin.

use vstd::prelude::*;

use crate::engine::record::{severity, TS_UNTIMED};
use crate::engine::Engine;

verus! {

/// Records of one stretch of time, by severity.
#[derive(Debug, Clone, Copy, PartialEq, Eq, Structural)]
pub struct Bin {
    pub unknown: u64,
    pub trace: u64,
    pub debug: u64,
    pub info: u64,
    pub warn: u64,
    pub error: u64,
    pub fatal: u64,
}

impl Bin {
    pub open spec fn empty() -> Bin {
        Bin { unknown: 0, trace: 0, debug: 0, info: 0, warn: 0, error: 0, fatal: 0 }
    }

    /// Records in the bin.
    pub open spec fn total(self) -> int {
        self.unknown + self.trace + self.debug + self.info + self.warn + self.error + self.fatal
    }

    /// The bin with one more record of that severity.
    pub open spec fn counting(self, sev: u8) -> Bin {
        if sev == severity::TRACE {
            Bin { trace: (self.trace + 1) as u64, ..self }
        } else if sev == severity::DEBUG {
            Bin { debug: (self.debug + 1) as u64, ..self }
        } else if sev == severity::INFO {
            Bin { info: (self.info + 1) as u64, ..self }
        } else if sev == severity::WARN {
            Bin { warn: (self.warn + 1) as u64, ..self }
        } else if sev == severity::ERROR {
            Bin { error: (self.error + 1) as u64, ..self }
        } else if sev == severity::FATAL {
            Bin { fatal: (self.fatal + 1) as u64, ..self }
        } else {
            Bin { unknown: (self.unknown + 1) as u64, ..self }
        }
    }

    fn count(self, sev: u8) -> (r: Bin)
        requires
            self.total() < u64::MAX,
        ensures
            r == self.counting(sev),
            r.total() == self.total() + 1,
    {
        if sev == severity::TRACE {
            Bin { trace: self.trace + 1, ..self }
        } else if sev == severity::DEBUG {
            Bin { debug: self.debug + 1, ..self }
        } else if sev == severity::INFO {
            Bin { info: self.info + 1, ..self }
        } else if sev == severity::WARN {
            Bin { warn: self.warn + 1, ..self }
        } else if sev == severity::ERROR {
            Bin { error: self.error + 1, ..self }
        } else if sev == severity::FATAL {
            Bin { fatal: self.fatal + 1, ..self }
        } else {
            Bin { unknown: self.unknown + 1, ..self }
        }
    }
}

/// The timestamp that the index has for an id; untimed when it has none.
pub open spec fn time_at(engine: Engine, id: u64) -> i64 {
    if id < engine.indexes.time.ts@.len() {
        engine.indexes.time.ts@[id as int]
    } else {
        TS_UNTIMED
    }
}

/// The severity that the index has for an id; unknown when it has none.
pub open spec fn severity_at(engine: Engine, id: u64) -> u8 {
    if id < engine.indexes.severity.levels@.len() {
        engine.indexes.severity.levels@[id as int]
    } else {
        severity::UNKNOWN
    }
}

/// The earliest timestamp in a view.
pub open spec fn earliest(engine: Engine, view: Seq<u64>) -> Option<i64>
    decreases view.len(),
{
    if view.len() == 0 {
        None
    } else {
        let t = time_at(engine, view.last());
        match earliest(engine, view.drop_last()) {
            None => if t == TS_UNTIMED {
                None
            } else {
                Some(t)
            },
            Some(m) => Some(
                if t != TS_UNTIMED && t < m {
                    t
                } else {
                    m
                },
            ),
        }
    }
}

/// The latest timestamp in a view.
pub open spec fn latest(engine: Engine, view: Seq<u64>) -> Option<i64>
    decreases view.len(),
{
    if view.len() == 0 {
        None
    } else {
        let t = time_at(engine, view.last());
        match latest(engine, view.drop_last()) {
            None => if t == TS_UNTIMED {
                None
            } else {
                Some(t)
            },
            Some(m) => Some(
                if t != TS_UNTIMED && t > m {
                    t
                } else {
                    m
                },
            ),
        }
    }
}

/// How many records of a view carry no timestamp.
pub open spec fn untimed_in(engine: Engine, view: Seq<u64>) -> nat
    decreases view.len(),
{
    if view.len() == 0 {
        0
    } else {
        untimed_in(engine, view.drop_last()) + if time_at(engine, view.last()) == TS_UNTIMED {
            1nat
        } else {
            0
        }
    }
}

/// The bin of a timestamp between `lo` and `hi`, of `bars` equal ones.
pub open spec fn bin_index(t: i64, lo: i64, hi: i64, bars: int) -> int {
    (t - lo) * bars / (hi - lo + 1)
}

/// Every timestamp of a range falls into one of its bins.
pub proof fn lemma_bin_index(t: i64, lo: i64, hi: i64, bars: int)
    requires
        lo <= t <= hi,
        bars > 0,
    ensures
        0 <= bin_index(t, lo, hi, bars) < bars,
{
    let w = hi - lo + 1;
    let d = t - lo;
    assert(0 <= d * bars < w * bars) by (nonlinear_arith)
        requires
            0 <= d < w,
            bars > 0,
    ;
    assert(0 <= (d * bars) / w < bars) by (nonlinear_arith)
        requires
            0 <= d * bars < w * bars,
            w > 0,
            bars > 0,
    ;
}

/// The bins of a view over the range `lo` to `hi`. What lies outside the range
/// is in no bin.
pub open spec fn binned(engine: Engine, view: Seq<u64>, lo: i64, hi: i64, bars: int) -> Seq<Bin>
    decreases view.len(),
{
    if bars <= 0 {
        Seq::empty()
    } else if view.len() == 0 {
        Seq::new(bars as nat, |i: int| Bin::empty())
    } else {
        let before = binned(engine, view.drop_last(), lo, hi, bars);
        let t = time_at(engine, view.last());
        if t == TS_UNTIMED || t < lo || t > hi {
            before
        } else {
            let k = bin_index(t, lo, hi, bars);
            before.update(k, before[k].counting(severity_at(engine, view.last())))
        }
    }
}

#[derive(Debug)]
pub struct Histogram {
    /// One bin per bar; none when no record has a timestamp.
    pub bins: Vec<Bin>,
    /// Start of the axis: the first timestamp, or 0 when there is none.
    pub t_min: i64,
    /// End of the axis: the last timestamp, or 0 when there is none.
    pub t_max: i64,
    /// Records without a timestamp.
    pub untimed: u64,
}

proof fn lemma_range(engine: Engine, view: Seq<u64>)
    ensures
        earliest(engine, view) is Some <==> latest(engine, view) is Some,
        earliest(engine, view) matches Some(lo) ==> lo <= latest(engine, view)->0,
        forall|i: int|
            0 <= i < view.len() && time_at(engine, #[trigger] view[i]) != TS_UNTIMED ==> earliest(
                engine,
                view,
            ) is Some && earliest(engine, view)->0 <= time_at(engine, view[i]) <= latest(
                engine,
                view,
            )->0,
    decreases view.len(),
{
    if view.len() > 0 {
        lemma_range(engine, view.drop_last());
        assert forall|i: int|
            0 <= i < view.len() && time_at(engine, #[trigger] view[i]) != TS_UNTIMED implies earliest(
            engine,
            view,
        ) is Some && earliest(engine, view)->0 <= time_at(engine, view[i]) <= latest(
            engine,
            view,
        )->0 by {
            if i < view.len() - 1 {
                assert(view.drop_last()[i] == view[i]);
            }
        }
    }
}

/// The axis of a view's histogram runs forward.
pub proof fn lemma_axis(engine: Engine, view: Seq<u64>)
    ensures
        earliest(engine, view) matches Some(lo) ==> latest(engine, view) is Some && lo <= latest(
            engine,
            view,
        )->0,
{
    lemma_range(engine, view);
}

impl Histogram {
    /// The histogram of the records of a view, in `bars` bins.
    pub open spec fn is_of(self, engine: Engine, view: Seq<u64>, bars: int) -> bool {
        &&& self.untimed == untimed_in(engine, view)
        &&& match earliest(engine, view) {
            None => self.bins@.len() == 0 && self.t_min == 0 && self.t_max == 0,
            Some(lo) => {
                &&& self.t_min == lo
                &&& self.t_max == latest(engine, view)->0
                &&& self.bins@ == binned(engine, view, self.t_min, self.t_max, bars)
            },
        }
    }

    /// The histogram of the records of a view that lie between `lo` and `hi`,
    /// in `bars` bins.
    pub open spec fn is_of_range(
        self,
        engine: Engine,
        view: Seq<u64>,
        lo: i64,
        hi: i64,
        bars: int,
    ) -> bool {
        &&& self.untimed == untimed_in(engine, view)
        &&& self.t_min == lo
        &&& self.t_max == hi
        &&& self.bins@ == binned(engine, view, lo, hi, bars)
    }

    /// Build the histogram of the records of a view, in `bars` bins.
    pub fn build_over(engine: &Engine, view: &[u64], bars: usize) -> (r: Self)
        requires
            engine.wf(),
        ensures
            r.is_of(*engine, view@, bars as int),
    {
        let (extent, untimed) = survey(engine, view);
        match extent {
            Some((t_min, t_max)) => {
                let bins: Vec<Bin> = fill_bins(engine, view, t_min, t_max, bars);
                Histogram { bins, t_min, t_max, untimed }
            },
            None => Histogram { bins: Vec::new(), t_min: 0, t_max: 0, untimed },
        }
    }

    /// Build the histogram of the records of a view that lie between `lo` and
    /// `hi`, in `bars` bins.
    pub fn build_over_range(engine: &Engine, view: &[u64], lo: i64, hi: i64, bars: usize) -> (r:
        Self)
        requires
            engine.wf(),
            lo <= hi,
        ensures
            r.is_of_range(*engine, view@, lo, hi, bars as int),
    {
        let (_, untimed) = survey(engine, view);
        let bins: Vec<Bin> = fill_bins(engine, view, lo, hi, bars);
        Histogram { bins, t_min: lo, t_max: hi, untimed }
    }
}

/// The first and the last timestamp of a view, and how many of its records
/// carry none.
pub(crate) fn survey(engine: &Engine, view: &[u64]) -> (r: (Option<(i64, i64)>, u64))
    ensures
        r.1 == untimed_in(*engine, view@),
        match r.0 {
            Some((lo, hi)) => lo <= hi && earliest(*engine, view@) == Some(lo) && latest(
                *engine,
                view@,
            ) == Some(hi),
            None => earliest(*engine, view@) is None,
        },
{
    let mut lo: Option<i64> = None;
    let mut hi: Option<i64> = None;
    let mut untimed: u64 = 0;
    let mut i: usize = 0;
    assert(view@.take(0) =~= Seq::empty());
    while i < view.len()
        invariant
            i <= view@.len(),
            lo == earliest(*engine, view@.take(i as int)),
            hi == latest(*engine, view@.take(i as int)),
            untimed == untimed_in(*engine, view@.take(i as int)),
            untimed <= i,
        decreases view@.len() - i,
    {
        assert(view@.take(i + 1).drop_last() =~= view@.take(i as int));
        let t: i64 = match engine.indexes.time.get(view[i]) {
            Some(t) => t,
            None => TS_UNTIMED,
        };
        if t == TS_UNTIMED {
            untimed = untimed + 1;
        } else {
            lo = match lo {
                Some(m) => if t < m {
                    Some(t)
                } else {
                    Some(m)
                },
                None => Some(t),
            };
            hi = match hi {
                Some(m) => if t > m {
                    Some(t)
                } else {
                    Some(m)
                },
                None => Some(t),
            };
        }
        i = i + 1;
    }
    assert(view@.take(view@.len() as int) =~= view@);
    proof {
        lemma_range(*engine, view@);
    }
    match (lo, hi) {
        (Some(a), Some(b)) => (Some((a, b)), untimed),
        _ => (None, untimed),
    }
}

fn fill_bins(engine: &Engine, view: &[u64], lo: i64, hi: i64, bars: usize) -> (r: Vec<Bin>)
    requires
        lo <= hi,
    ensures
        r@ == binned(*engine, view@, lo, hi, bars as int),
{
    let mut bins: Vec<Bin> = Vec::new();
    let mut k: usize = 0;
    while k < bars
        invariant
            k <= bars,
            bins@.len() == k,
            forall|j: int| 0 <= j < k ==> bins@[j] == Bin::empty(),
        decreases bars - k,
    {
        bins.push(
            Bin { unknown: 0, trace: 0, debug: 0, info: 0, warn: 0, error: 0, fatal: 0 },
        );
        k = k + 1;
    }
    assert(view@.take(0) =~= Seq::empty());
    assert(bins@ =~= binned(*engine, view@.take(0), lo, hi, bars as int));
    let width: u128 = (hi as i128 - lo as i128 + 1) as u128;
    let mut i: usize = 0;
    while i < view.len()
        invariant
            i <= view@.len(),
            lo <= hi,
            width == hi - lo + 1,
            bins@.len() == bars,
            bins@ == binned(*engine, view@.take(i as int), lo, hi, bars as int),
            forall|j: int| 0 <= j < bars ==> (#[trigger] bins@[j]).total() <= i,
        decreases view@.len() - i,
    {
        assert(view@.take(i + 1).drop_last() =~= view@.take(i as int));
        let id: u64 = view[i];
        let t: i64 = match engine.indexes.time.get(id) {
            Some(t) => t,
            None => TS_UNTIMED,
        };
        if t != TS_UNTIMED && lo <= t && t <= hi {
            let sev: u8 = match engine.indexes.severity.get(id) {
                Some(s) => s,
                None => severity::UNKNOWN,
            };
            if bars > 0 {
                proof {
                    lemma_bin_index(t, lo, hi, bars as int);
                    lemma_bin_product(t - lo, bars as int);
                }
                let d: u128 = (t as i128 - lo as i128) as u128;
                let at: usize = (d * bars as u128 / width) as usize;
                let b: Bin = bins[at].count(sev);
                bins.set(at, b);
            } else {
                assert(binned(*engine, view@.take(i + 1), lo, hi, bars as int) =~= bins@);
            }
        }
        i = i + 1;
    }
    assert(view@.take(view@.len() as int) =~= view@);
    bins
}

/// The product that places a timestamp fits in 128 bits.
proof fn lemma_bin_product(d: int, bars: int)
    requires
        0 <= d <= u64::MAX,
        0 <= bars <= u64::MAX,
    ensures
        0 <= d * bars <= u128::MAX,
{
    assert(0 <= d * bars <= 0xffff_ffff_ffff_ffff * 0xffff_ffff_ffff_ffff) by (nonlinear_arith)
        requires
            0 <= d <= 0xffff_ffff_ffff_ffff,
            0 <= bars <= 0xffff_ffff_ffff_ffff,
    ;
}

/// Sum of the records in a row of bins.
pub open spec fn binned_total(bins: Seq<Bin>) -> int
    decreases bins.len(),
{
    if bins.len() == 0 {
        0
    } else {
        binned_total(bins.drop_last()) + bins.last().total()
    }
}

proof fn lemma_total_update(bins: Seq<Bin>, k: int, b: Bin)
    requires
        0 <= k < bins.len(),
    ensures
        binned_total(bins.update(k, b)) == binned_total(bins) - bins[k].total() + b.total(),
    decreases bins.len(),
{
    let after = bins.update(k, b);
    if k == bins.len() - 1 {
        assert(after.drop_last() =~= bins.drop_last());
    } else {
        assert(after.drop_last() =~= bins.drop_last().update(k, b));
        lemma_total_update(bins.drop_last(), k, b);
    }
}

proof fn lemma_empty_total(bins: Seq<Bin>)
    requires
        forall|i: int| 0 <= i < bins.len() ==> #[trigger] bins[i] == Bin::empty(),
    ensures
        binned_total(bins) == 0,
    decreases bins.len(),
{
    if bins.len() > 0 {
        assert forall|i: int| 0 <= i < bins.drop_last().len() implies #[trigger] bins.drop_last()[i]
            == Bin::empty() by {
            assert(bins[i] == Bin::empty());
        }
        lemma_empty_total(bins.drop_last());
    }
}

proof fn lemma_binned_keeps(engine: Engine, view: Seq<u64>, lo: i64, hi: i64, bars: int)
    requires
        lo <= hi,
        bars > 0,
        view.len() < u64::MAX,
    ensures
        binned(engine, view, lo, hi, bars).len() == bars,
        forall|k: int|
            0 <= k < bars ==> 0 <= (#[trigger] binned(engine, view, lo, hi, bars)[k]).total()
                <= view.len(),
        binned_total(binned(engine, view, lo, hi, bars)) + untimed_in(engine, view) + outside(
            engine,
            view,
            lo,
            hi,
        ) == view.len(),
    decreases view.len(),
{
    if view.len() == 0 {
        lemma_empty_total(binned(engine, view, lo, hi, bars));
    } else {
        let prev = view.drop_last();
        lemma_binned_keeps(engine, prev, lo, hi, bars);
        let before = binned(engine, prev, lo, hi, bars);
        let last = view[view.len() - 1];
        let t = time_at(engine, last);
        if t != TS_UNTIMED && lo <= t <= hi {
            lemma_bin_index(t, lo, hi, bars);
            let k = bin_index(t, lo, hi, bars);
            let b = before[k].counting(severity_at(engine, last));
            assert(before[k].total() <= prev.len());
            assert(b.total() == before[k].total() + 1);
            lemma_total_update(before, k, b);
        }
    }
}

proof fn lemma_none_outside(engine: Engine, view: Seq<u64>, lo: i64, hi: i64)
    requires
        forall|i: int|
            0 <= i < view.len() && time_at(engine, #[trigger] view[i]) != TS_UNTIMED ==> lo
                <= time_at(engine, view[i]) <= hi,
    ensures
        outside(engine, view, lo, hi) == 0,
    decreases view.len(),
{
    if view.len() > 0 {
        let prev = view.drop_last();
        assert forall|i: int|
            0 <= i < prev.len() && time_at(engine, #[trigger] prev[i]) != TS_UNTIMED implies lo
            <= time_at(engine, prev[i]) <= hi by {
            assert(prev[i] == view[i]);
        }
        lemma_none_outside(engine, prev, lo, hi);
        assert(view[view.len() - 1] == view.last());
    }
}

/// No record is lost: those in the bins and the untimed ones are all records
/// of the view.
pub proof fn law_histogram_loses_nothing(h: Histogram, engine: Engine, view: Seq<u64>, bars: int)
    requires
        h.is_of(engine, view, bars),
        bars > 0,
        view.len() < u64::MAX,
    ensures
        binned_total(h.bins@) + h.untimed == view.len(),
{
    lemma_range(engine, view);
    match earliest(engine, view) {
        Some(lo) => {
            lemma_binned_keeps(engine, view, h.t_min, h.t_max, bars);
            lemma_none_outside(engine, view, h.t_min, h.t_max);
        },
        None => {
            lemma_all_untimed(engine, view);
        },
    }
}

/// How many records of a view are timed outside a range.
pub open spec fn outside(engine: Engine, view: Seq<u64>, lo: i64, hi: i64) -> nat
    decreases view.len(),
{
    if view.len() == 0 {
        0
    } else {
        let t = time_at(engine, view.last());
        outside(engine, view.drop_last(), lo, hi) + if t != TS_UNTIMED && (t < lo || t > hi) {
            1nat
        } else {
            0
        }
    }
}

/// A histogram of a range loses no record either: those in the bins, the
/// untimed ones and the ones outside the range are all records of the view.
pub proof fn law_range_histogram_loses_nothing(
    h: Histogram,
    engine: Engine,
    view: Seq<u64>,
    lo: i64,
    hi: i64,
    bars: int,
)
    requires
        h.is_of_range(engine, view, lo, hi, bars),
        lo <= hi,
        bars > 0,
        view.len() < u64::MAX,
    ensures
        binned_total(h.bins@) + h.untimed + outside(engine, view, lo, hi) == view.len(),
{
    lemma_binned_keeps(engine, view, lo, hi, bars);
}

/// The first instant of a bin, of `bars` equal ones between `lo` and `hi`.
pub open spec fn bin_start(k: int, lo: i64, hi: i64, bars: int) -> int {
    lo + (k * (hi - lo + 1) + bars - 1) / bars
}

/// A bin holds the instants from its start up to the start of the next.
pub proof fn law_bin_is_a_stretch_of_time(t: i64, lo: i64, hi: i64, bars: int, k: int)
    requires
        lo <= t <= hi,
        bars > 0,
    ensures
        bin_index(t, lo, hi, bars) == k <==> bin_start(k, lo, hi, bars) <= t < bin_start(
            k + 1,
            lo,
            hi,
            bars,
        ),
{
    let w = hi - lo + 1;
    let d = t - lo;
    lemma_quotient(d * bars, w, k);
    lemma_ceiling(k * w, bars, d);
    lemma_ceiling((k + 1) * w, bars, d);
}

/// A quotient by the products around it.
proof fn lemma_quotient(a: int, w: int, k: int)
    requires
        w > 0,
    ensures
        a / w == k <==> k * w <= a < (k + 1) * w,
{
    assert(a / w == k <==> k * w <= a < (k + 1) * w) by (nonlinear_arith)
        requires
            w > 0,
    ;
}

/// A quotient rounded up is at most `d` when `d` times the divisor is enough.
proof fn lemma_ceiling(a: int, b: int, d: int)
    requires
        b > 0,
    ensures
        (a + b - 1) / b <= d <==> a <= d * b,
{
    let q = (a + b - 1) / b;
    assert(q <= d <==> a <= d * b) by (nonlinear_arith)
        requires
            b > 0,
            q == (a + b - 1) / b,
    ;
}

proof fn lemma_all_untimed(engine: Engine, view: Seq<u64>)
    requires
        earliest(engine, view) is None,
    ensures
        untimed_in(engine, view) == view.len(),
    decreases view.len(),
{
    if view.len() > 0 {
        lemma_all_untimed(engine, view.drop_last());
    }
}

/// A histogram depends on the engine by the times and severities it has
/// indexed, and by nothing else.
pub proof fn lemma_same_index(h: Histogram, a: Engine, b: Engine, view: Seq<u64>, bars: int)
    requires
        a.indexes.time.ts@ == b.indexes.time.ts@,
        a.indexes.severity.levels@ == b.indexes.severity.levels@,
        h.is_of(a, view, bars),
    ensures
        h.is_of(b, view, bars),
{
    lemma_same_range(a, b, view);
    if earliest(a, view) is Some {
        lemma_same_bins(a, b, view, h.t_min, h.t_max, bars);
    }
}

/// The same of a histogram of a range.
pub proof fn lemma_same_index_in_range(
    h: Histogram,
    a: Engine,
    b: Engine,
    view: Seq<u64>,
    lo: i64,
    hi: i64,
    bars: int,
)
    requires
        a.indexes.time.ts@ == b.indexes.time.ts@,
        a.indexes.severity.levels@ == b.indexes.severity.levels@,
        h.is_of_range(a, view, lo, hi, bars),
    ensures
        h.is_of_range(b, view, lo, hi, bars),
{
    lemma_same_range(a, b, view);
    lemma_same_bins(a, b, view, lo, hi, bars);
}

proof fn lemma_same_range(a: Engine, b: Engine, view: Seq<u64>)
    requires
        a.indexes.time.ts@ == b.indexes.time.ts@,
    ensures
        earliest(a, view) == earliest(b, view),
        latest(a, view) == latest(b, view),
        untimed_in(a, view) == untimed_in(b, view),
    decreases view.len(),
{
    if view.len() > 0 {
        lemma_same_range(a, b, view.drop_last());
    }
}

proof fn lemma_same_bins(a: Engine, b: Engine, view: Seq<u64>, lo: i64, hi: i64, bars: int)
    requires
        a.indexes.time.ts@ == b.indexes.time.ts@,
        a.indexes.severity.levels@ == b.indexes.severity.levels@,
    ensures
        binned(a, view, lo, hi, bars) == binned(b, view, lo, hi, bars),
    decreases view.len(),
{
    if view.len() > 0 {
        lemma_same_bins(a, b, view.drop_last(), lo, hi, bars);
    }
}

/// One more record raises the count of its own severity by one, and no other.
/// A rank beyond the six that have a name counts as unknown.
pub proof fn law_one_record_is_counted_once(b: Bin, sev: u8)
    requires
        b.total() < u64::MAX,
    ensures
        ({
            let a = b.counting(sev);
            &&& a.trace == b.trace + (if sev == severity::TRACE { 1int } else { 0 })
            &&& a.debug == b.debug + (if sev == severity::DEBUG { 1int } else { 0 })
            &&& a.info == b.info + (if sev == severity::INFO { 1int } else { 0 })
            &&& a.warn == b.warn + (if sev == severity::WARN { 1int } else { 0 })
            &&& a.error == b.error + (if sev == severity::ERROR { 1int } else { 0 })
            &&& a.fatal == b.fatal + (if sev == severity::FATAL { 1int } else { 0 })
            &&& a.unknown == b.unknown + (if sev == severity::UNKNOWN || sev > severity::FATAL {
                1int
            } else {
                0
            })
        }),
{
}

/// A record has this severity and falls into the k-th of `bars` equal parts of
/// the time from `lo` to `hi`: its distance from the start, in parts of the
/// whole, lies between k and k + 1.
pub open spec fn falls_into(
    engine: Engine,
    id: u64,
    sev: u8,
    lo: i64,
    hi: i64,
    bars: int,
    k: int,
) -> bool {
    let t = time_at(engine, id);
    let s = severity_at(engine, id);
    &&& t != TS_UNTIMED
    &&& lo <= t <= hi
    &&& k * (hi - lo + 1) <= (t - lo) * bars < (k + 1) * (hi - lo + 1)
    &&& s == sev || (sev == severity::UNKNOWN && s > severity::FATAL)
}

/// How many records of a view have this severity and fall into the k-th part.
pub open spec fn fallen_into(
    engine: Engine,
    view: Seq<u64>,
    sev: u8,
    lo: i64,
    hi: i64,
    bars: int,
    k: int,
) -> nat {
    view.filter(|id: u64| falls_into(engine, id, sev, lo, hi, bars, k)).len()
}

proof fn lemma_one_more_fallen(
    engine: Engine,
    view: Seq<u64>,
    sev: u8,
    lo: i64,
    hi: i64,
    bars: int,
    k: int,
)
    requires
        view.len() > 0,
    ensures
        fallen_into(engine, view, sev, lo, hi, bars, k) == fallen_into(
            engine,
            view.drop_last(),
            sev,
            lo,
            hi,
            bars,
            k,
        ) + if falls_into(engine, view.last(), sev, lo, hi, bars, k) {
            1nat
        } else {
            0
        },
{
    reveal(Seq::filter);
}

proof fn lemma_none_fallen(engine: Engine, sev: u8, lo: i64, hi: i64, bars: int, k: int)
    ensures
        fallen_into(engine, Seq::empty(), sev, lo, hi, bars, k) == 0,
{
    reveal(Seq::filter);
}

proof fn lemma_bins_count_severities(
    engine: Engine,
    view: Seq<u64>,
    lo: i64,
    hi: i64,
    bars: int,
    k: int,
)
    requires
        lo <= hi,
        0 <= k < bars,
        view.len() < u64::MAX,
    ensures
        ({
            let b = binned(engine, view, lo, hi, bars)[k];
            &&& b.unknown == fallen_into(engine, view, severity::UNKNOWN, lo, hi, bars, k)
            &&& b.trace == fallen_into(engine, view, severity::TRACE, lo, hi, bars, k)
            &&& b.debug == fallen_into(engine, view, severity::DEBUG, lo, hi, bars, k)
            &&& b.info == fallen_into(engine, view, severity::INFO, lo, hi, bars, k)
            &&& b.warn == fallen_into(engine, view, severity::WARN, lo, hi, bars, k)
            &&& b.error == fallen_into(engine, view, severity::ERROR, lo, hi, bars, k)
            &&& b.fatal == fallen_into(engine, view, severity::FATAL, lo, hi, bars, k)
        }),
    decreases view.len(),
{
    if view.len() == 0 {
        assert(view =~= Seq::empty());
        lemma_none_fallen(engine, severity::UNKNOWN, lo, hi, bars, k);
        lemma_none_fallen(engine, severity::TRACE, lo, hi, bars, k);
        lemma_none_fallen(engine, severity::DEBUG, lo, hi, bars, k);
        lemma_none_fallen(engine, severity::INFO, lo, hi, bars, k);
        lemma_none_fallen(engine, severity::WARN, lo, hi, bars, k);
        lemma_none_fallen(engine, severity::ERROR, lo, hi, bars, k);
        lemma_none_fallen(engine, severity::FATAL, lo, hi, bars, k);
    } else {
        let prev = view.drop_last();
        lemma_bins_count_severities(engine, prev, lo, hi, bars, k);
        lemma_binned_keeps(engine, prev, lo, hi, bars);
        lemma_one_more_fallen(engine, view, severity::UNKNOWN, lo, hi, bars, k);
        lemma_one_more_fallen(engine, view, severity::TRACE, lo, hi, bars, k);
        lemma_one_more_fallen(engine, view, severity::DEBUG, lo, hi, bars, k);
        lemma_one_more_fallen(engine, view, severity::INFO, lo, hi, bars, k);
        lemma_one_more_fallen(engine, view, severity::WARN, lo, hi, bars, k);
        lemma_one_more_fallen(engine, view, severity::ERROR, lo, hi, bars, k);
        lemma_one_more_fallen(engine, view, severity::FATAL, lo, hi, bars, k);
        let before = binned(engine, prev, lo, hi, bars);
        assert(before[k].total() <= prev.len());
        let id = view[view.len() - 1];
        let t = time_at(engine, id);
        if t != TS_UNTIMED && lo <= t <= hi {
            lemma_bin_index(t, lo, hi, bars);
            lemma_quotient((t - lo) * bars, hi - lo + 1, k);
            law_one_record_is_counted_once(before[k], severity_at(engine, id));
        }
    }
}

/// Each field of a bar counts the records of the view that have the severity
/// of its name and fall into the bar's stretch of time. This holds of a whole
/// view, whose axis is from its first to its last timestamp.
pub proof fn law_bars_count_by_severity(
    h: Histogram,
    engine: Engine,
    view: Seq<u64>,
    bars: int,
    k: int,
)
    requires
        h.is_of(engine, view, bars),
        earliest(engine, view) is Some,
        0 <= k < bars,
        view.len() < u64::MAX,
    ensures
        h.bins@.len() == bars,
        ({
            let (lo, hi) = (h.t_min, h.t_max);
            let b = h.bins@[k];
            &&& b.unknown == fallen_into(engine, view, severity::UNKNOWN, lo, hi, bars, k)
            &&& b.trace == fallen_into(engine, view, severity::TRACE, lo, hi, bars, k)
            &&& b.debug == fallen_into(engine, view, severity::DEBUG, lo, hi, bars, k)
            &&& b.info == fallen_into(engine, view, severity::INFO, lo, hi, bars, k)
            &&& b.warn == fallen_into(engine, view, severity::WARN, lo, hi, bars, k)
            &&& b.error == fallen_into(engine, view, severity::ERROR, lo, hi, bars, k)
            &&& b.fatal == fallen_into(engine, view, severity::FATAL, lo, hi, bars, k)
        }),
{
    lemma_range(engine, view);
    lemma_bins_count_severities(engine, view, h.t_min, h.t_max, bars, k);
    lemma_binned_keeps(engine, view, h.t_min, h.t_max, bars);
}

/// The same of a histogram of a range.
pub proof fn law_range_bars_count_by_severity(
    h: Histogram,
    engine: Engine,
    view: Seq<u64>,
    lo: i64,
    hi: i64,
    bars: int,
    k: int,
)
    requires
        h.is_of_range(engine, view, lo, hi, bars),
        lo <= hi,
        0 <= k < bars,
        view.len() < u64::MAX,
    ensures
        h.bins@.len() == bars,
        ({
            let b = h.bins@[k];
            &&& b.unknown == fallen_into(engine, view, severity::UNKNOWN, lo, hi, bars, k)
            &&& b.trace == fallen_into(engine, view, severity::TRACE, lo, hi, bars, k)
            &&& b.debug == fallen_into(engine, view, severity::DEBUG, lo, hi, bars, k)
            &&& b.info == fallen_into(engine, view, severity::INFO, lo, hi, bars, k)
            &&& b.warn == fallen_into(engine, view, severity::WARN, lo, hi, bars, k)
            &&& b.error == fallen_into(engine, view, severity::ERROR, lo, hi, bars, k)
            &&& b.fatal == fallen_into(engine, view, severity::FATAL, lo, hi, bars, k)
        }),
{
    lemma_bins_count_severities(engine, view, lo, hi, bars, k);
    lemma_binned_keeps(engine, view, lo, hi, bars);
}

/// The axis of a view runs from its first timestamp to its last: no timestamp
/// of the view lies outside, and both ends are timestamps of the view. There is
/// an axis as soon as one record is timed.
pub proof fn law_axis_spans_the_view(h: Histogram, engine: Engine, view: Seq<u64>, bars: int)
    requires
        h.is_of(engine, view, bars),
    ensures
        forall|i: int|
            0 <= i < view.len() && time_at(engine, #[trigger] view[i]) != TS_UNTIMED ==> h.t_min
                <= time_at(engine, view[i]) <= h.t_max,
        (exists|i: int| 0 <= i < view.len() && time_at(engine, #[trigger] view[i]) != TS_UNTIMED)
            ==> {
            &&& exists|i: int|
                0 <= i < view.len() && time_at(engine, #[trigger] view[i]) == h.t_min && h.t_min
                    != TS_UNTIMED
            &&& exists|i: int|
                0 <= i < view.len() && time_at(engine, #[trigger] view[i]) == h.t_max && h.t_max
                    != TS_UNTIMED
        },
        h.untimed == view.filter(|id: u64| time_at(engine, id) == TS_UNTIMED).len(),
{
    lemma_range(engine, view);
    lemma_ends_are_met(engine, view);
    lemma_untimed_filter(engine, view);
}

proof fn lemma_ends_are_met(engine: Engine, view: Seq<u64>)
    ensures
        earliest(engine, view) matches Some(lo) ==> exists|i: int|
            0 <= i < view.len() && time_at(engine, #[trigger] view[i]) == lo && lo != TS_UNTIMED,
        latest(engine, view) matches Some(hi) ==> exists|i: int|
            0 <= i < view.len() && time_at(engine, #[trigger] view[i]) == hi && hi != TS_UNTIMED,
    decreases view.len(),
{
    if view.len() > 0 {
        let prev = view.drop_last();
        lemma_ends_are_met(engine, prev);
        let t = time_at(engine, view[view.len() - 1]);
        if let Some(lo) = earliest(engine, view) {
            if lo != t || t == TS_UNTIMED {
                let i = choose|i: int|
                    0 <= i < prev.len() && time_at(engine, #[trigger] prev[i]) == lo && lo
                        != TS_UNTIMED;
                assert(view[i] == prev[i]);
            }
        }
        if let Some(hi) = latest(engine, view) {
            if hi != t || t == TS_UNTIMED {
                let i = choose|i: int|
                    0 <= i < prev.len() && time_at(engine, #[trigger] prev[i]) == hi && hi
                        != TS_UNTIMED;
                assert(view[i] == prev[i]);
            }
        }
    }
}

/// The untimed records of a view are those without a timestamp.
pub proof fn lemma_untimed_filter(engine: Engine, view: Seq<u64>)
    ensures
        untimed_in(engine, view) == view.filter(
            |id: u64| time_at(engine, id) == TS_UNTIMED,
        ).len(),
    decreases view.len(),
{
    reveal(Seq::filter);
    if view.len() > 0 {
        lemma_untimed_filter(engine, view.drop_last());
    }
}

/// The bars tile the range: the first starts where it starts, the last ends
/// where it ends, and no bar is more than one instant longer than another.
pub proof fn law_bars_tile_the_range(lo: i64, hi: i64, bars: int, k: int)
    requires
        lo <= hi,
        bars > 0,
        0 <= k < bars,
    ensures
        bin_start(0, lo, hi, bars) == lo,
        bin_start(bars, lo, hi, bars) == hi + 1,
        bars * (bin_start(k + 1, lo, hi, bars) - bin_start(k, lo, hi, bars)) < (hi - lo + 1) + bars,
        bars * (bin_start(k + 1, lo, hi, bars) - bin_start(k, lo, hi, bars)) > (hi - lo + 1) - bars,
{
    let w = hi - lo + 1;
    let a = (k * w + bars - 1) / bars;
    let b = ((k + 1) * w + bars - 1) / bars;
    lemma_rounded_up(k * w, bars);
    lemma_rounded_up((k + 1) * w, bars);
    lemma_rounded_up(0, bars);
    lemma_rounded_up(bars * w, bars);
    assert((k + 1) * w == k * w + w) by (nonlinear_arith);
    assert(bars * (b - a) == bars * b - bars * a) by (nonlinear_arith);
    assert(bin_start(0, lo, hi, bars) == lo) by {
        let z = (0 * w + bars - 1) / bars;
        assert(0 * w == 0) by (nonlinear_arith);
        assert(z == 0) by (nonlinear_arith)
            requires
                0 <= bars * z < bars,
                bars > 0,
        ;
    }
    assert(bin_start(bars, lo, hi, bars) == hi + 1) by {
        let z = (bars * w + bars - 1) / bars;
        assert(z == w) by (nonlinear_arith)
            requires
                bars * w <= bars * z < bars * w + bars,
                bars > 0,
        ;
    }
}

proof fn lemma_rounded_up(a: int, b: int)
    requires
        b > 0,
    ensures
        a <= b * ((a + b - 1) / b) < a + b,
{
    let q = (a + b - 1) / b;
    assert(a <= b * q < a + b) by (nonlinear_arith)
        requires
            b > 0,
            q == (a + b - 1) / b,
    ;
}

} // verus!
