//! The scrub: a cursor on the bars of the timeline, and the stretch of time
//! that the bars show.

use vstd::prelude::*;

use crate::engine::histogram;
use crate::engine::histogram::Histogram;

verus! {

/// A cursor on the timeline.
#[derive(Debug, Clone, Copy, PartialEq, Eq, Structural)]
pub struct Scrub {
    /// The bar under the cursor.
    pub at: usize,
    /// Bars of the timeline.
    pub bars: usize,
    /// First instant on the axis.
    pub lo: i64,
    /// Last instant on the axis.
    pub hi: i64,
    /// The axis is a window that zooming chose, not all there is to show.
    pub zoomed: bool,
}

/// A number kept between two others.
pub open spec fn between(n: int, lo: int, hi: int) -> int {
    if n < lo {
        lo
    } else if n > hi {
        hi
    } else {
        n
    }
}

fn keep_between(n: i128, lo: i128, hi: i128) -> (r: i128)
    ensures
        r == between(n as int, lo as int, hi as int),
{
    if n < lo {
        lo
    } else if n > hi {
        hi
    } else {
        n
    }
}

/// A timeline that a cursor can be put on.
pub open spec fn can_scrub(bars: int, t_max: i64) -> bool {
    0 < bars <= u16::MAX && t_max < i64::MAX
}

impl Scrub {
    /// The cursor is on a bar, and the axis is not empty.
    pub open spec fn wf(self) -> bool {
        &&& self.at < self.bars <= u16::MAX
        &&& self.lo <= self.hi < i64::MAX
    }

    /// The cursor as it appears: in the middle of all there is to show.
    pub open spec fn opened(bars: int, lo: i64, hi: i64) -> Scrub {
        Scrub { at: (bars / 2) as usize, bars: bars as usize, lo, hi, zoomed: false }
    }

    /// The cursor some bars to the right, kept on the timeline.
    pub open spec fn moved(self, by: int) -> Scrub {
        Scrub { at: between(self.at + by, 0, self.bars - 1) as usize, ..self }
    }

    /// The instant that zooming holds on to: the first of the bar under the
    /// cursor.
    pub open spec fn anchor(self) -> int {
        between(
            histogram::bin_start(self.at as int, self.lo, self.hi, self.bars as int),
            self.lo as int,
            self.hi as int,
        )
    }

    /// The cursor on another axis, on the bar of an instant.
    pub open spec fn on_axis(self, lo: int, hi: int, instant: int, zoomed: bool) -> Scrub {
        Scrub {
            at: histogram::bin_index(
                instant as i64,
                lo as i64,
                hi as i64,
                self.bars as int,
            ) as usize,
            lo: lo as i64,
            hi: hi as i64,
            zoomed,
            ..self
        }
    }

    /// Zoomed in: half the axis, with the anchor where it was.
    pub open spec fn closer(self) -> Scrub {
        let a = self.anchor();
        let lo = a - (a - self.lo) / 2;
        let hi = lo + (self.hi - self.lo + 2) / 2 - 1;
        self.on_axis(lo, hi, a, true)
    }

    /// Zoomed out: twice the axis, with the anchor where it was, kept between
    /// the first and the last instant there is; all of it when it is no more.
    pub open spec fn wider(self, first: i64, last: i64) -> Scrub {
        let a = self.anchor();
        let width = 2 * (self.hi - self.lo + 1);
        if width > last - first {
            self.on_axis(
                first as int,
                last as int,
                between(a, first as int, last as int),
                false,
            )
        } else {
            let lo = between(a - 2 * (a - self.lo), first as int, last - width + 1);
            let hi = lo + width - 1;
            self.on_axis(lo, hi, between(a, lo, hi), true)
        }
    }

    /// The stretch of time that is selected: the bar under the cursor, or the
    /// whole window when zoomed.
    pub open spec fn selection(self) -> (i64, i64) {
        if self.zoomed {
            (self.lo, self.hi)
        } else {
            (
                histogram::bin_start(
                    self.at as int,
                    self.lo,
                    self.hi,
                    self.bars as int,
                ) as i64,
                (histogram::bin_start(
                    self.at + 1,
                    self.lo,
                    self.hi,
                    self.bars as int,
                ) - 1) as i64,
            )
        }
    }

    /// The axis that a zoomed timeline is drawn over.
    pub open spec fn window(s: Option<Scrub>) -> Option<(i64, i64)> {
        match s {
            Some(s) => if s.zoomed {
                Some((s.lo, s.hi))
            } else {
                None
            },
            None => None,
        }
    }

    /// The cursor on a timeline as it was drawn anew: on the axis that was
    /// drawn, and on a bar of it. Where no bar was drawn, a zoomed one stays as
    /// it was, and any other is gone.
    pub open spec fn redrawn(s: Option<Scrub>, bars: int, t_min: i64, t_max: i64) -> Option<Scrub> {
        match s {
            Some(s) => if can_scrub(bars, t_max) {
                Some(
                    Scrub {
                        at: between(s.at as int, 0, bars - 1) as usize,
                        bars: bars as usize,
                        lo: t_min,
                        hi: t_max,
                        zoomed: s.zoomed,
                    },
                )
            } else if s.zoomed {
                Some(s)
            } else {
                None
            },
            None => None,
        }
    }

    pub(crate) fn open(bars: usize, lo: i64, hi: i64) -> (r: Scrub)
        requires
            can_scrub(bars as int, hi),
            lo <= hi,
        ensures
            r == Scrub::opened(bars as int, lo, hi),
            r.wf(),
    {
        Scrub { at: bars / 2, bars, lo, hi, zoomed: false }
    }

    pub(crate) fn step(self, by: i8) -> (r: Scrub)
        requires
            self.wf(),
        ensures
            r == self.moved(by as int),
            r.wf(),
    {
        let at: i128 = keep_between(self.at as i128 + by as i128, 0, self.bars as i128 - 1);
        Scrub { at: at as usize, ..self }
    }

    fn bar_start(self, k: usize) -> (r: i128)
        requires
            self.wf(),
            k <= self.bars,
        ensures
            r == histogram::bin_start(k as int, self.lo, self.hi, self.bars as int),
            self.lo <= r <= self.hi + 1,
    {
        let w: i128 = self.hi as i128 - self.lo as i128 + 1;
        proof {
            lemma_bar_start(k as int, self.lo, self.hi, self.bars as int);
            assert(0 <= k * w <= 0xffff * 0x1_0000_0000_0000_0000) by (nonlinear_arith)
                requires
                    0 <= k <= 0xffff,
                    0 <= w <= 0x1_0000_0000_0000_0000,
            ;
        }
        let n: i128 = k as i128 * w + self.bars as i128 - 1;
        self.lo as i128 + n / self.bars as i128
    }

    fn anchored(self) -> (r: i128)
        requires
            self.wf(),
        ensures
            r == self.anchor(),
            self.lo <= r <= self.hi,
    {
        keep_between(self.bar_start(self.at), self.lo as i128, self.hi as i128)
    }

    fn place(self, lo: i128, hi: i128, instant: i128, zoomed: bool) -> (r: Scrub)
        requires
            self.wf(),
            i64::MIN <= lo <= instant <= hi < i64::MAX,
        ensures
            r == self.on_axis(lo as int, hi as int, instant as int, zoomed),
            r.wf(),
    {
        proof {
            histogram::lemma_bin_index(
                instant as i64,
                lo as i64,
                hi as i64,
                self.bars as int,
            );
            assert(0 <= (instant - lo) * self.bars <= 0x1_0000_0000_0000_0000 * 0xffff)
                by (nonlinear_arith)
                requires
                    0 <= instant - lo <= 0x1_0000_0000_0000_0000,
                    0 <= self.bars <= 0xffff,
            ;
        }
        let at: i128 = (instant - lo) * self.bars as i128 / (hi - lo + 1);
        Scrub { at: at as usize, bars: self.bars, lo: lo as i64, hi: hi as i64, zoomed }
    }

    pub(crate) fn zoom_in(self) -> (r: Scrub)
        requires
            self.wf(),
        ensures
            r == self.closer(),
            r.wf(),
    {
        let a: i128 = self.anchored();
        let lo: i128 = a - (a - self.lo as i128) / 2;
        let hi: i128 = lo + (self.hi as i128 - self.lo as i128 + 2) / 2 - 1;
        self.place(lo, hi, a, true)
    }

    pub(crate) fn zoom_out(self, first: i64, last: i64) -> (r: Scrub)
        requires
            self.wf(),
            first <= last < i64::MAX,
        ensures
            r == self.wider(first, last),
            r.wf(),
    {
        let a: i128 = self.anchored();
        let width: i128 = 2 * (self.hi as i128 - self.lo as i128 + 1);
        if width > last as i128 - first as i128 {
            let instant: i128 = keep_between(a, first as i128, last as i128);
            return self.place(first as i128, last as i128, instant, false);
        }
        let lo: i128 = keep_between(
            a - 2 * (a - self.lo as i128),
            first as i128,
            last as i128 - width + 1,
        );
        let hi: i128 = lo + width - 1;
        self.place(lo, hi, keep_between(a, lo, hi), true)
    }

    pub(crate) fn selected(self) -> (r: (i64, i64))
        requires
            self.wf(),
        ensures
            r == self.selection(),
    {
        if self.zoomed {
            (self.lo, self.hi)
        } else {
            let start: i128 = self.bar_start(self.at);
            let next: i128 = self.bar_start(self.at + 1);
            proof {
                lemma_bars_in_order(self.at as int, self.lo, self.hi, self.bars as int);
            }
            (start as i64, (next - 1) as i64)
        }
    }

    pub(crate) fn fit(s: Option<Scrub>, h: &Histogram) -> (r: Option<Scrub>)
        requires
            h.t_min <= h.t_max,
            s matches Some(s) ==> s.wf(),
        ensures
            r == Scrub::redrawn(s, h.bins@.len() as int, h.t_min, h.t_max),
            r matches Some(s) ==> s.wf(),
    {
        let bars: usize = h.bins.len();
        match s {
            Some(s) => if 0 < bars && bars <= u16::MAX as usize && h.t_max < i64::MAX {
                let at: usize = if s.at < bars {
                    s.at
                } else {
                    bars - 1
                };
                Some(Scrub { at, bars, lo: h.t_min, hi: h.t_max, zoomed: s.zoomed })
            } else if s.zoomed {
                Some(s)
            } else {
                None
            },
            None => None,
        }
    }
}

/// A bar starts on the axis, or right behind it.
proof fn lemma_bar_start(k: int, lo: i64, hi: i64, bars: int)
    requires
        lo <= hi,
        0 <= k <= bars,
        bars > 0,
    ensures
        lo <= histogram::bin_start(k, lo, hi, bars) <= hi + 1,
{
    let w = hi - lo + 1;
    assert(0 <= (k * w + bars - 1) / bars <= w) by (nonlinear_arith)
        requires
            0 <= k <= bars,
            bars > 0,
            w > 0,
    ;
}

/// A bar starts no later than the one behind it, and the one behind the first
/// starts behind the start of the axis.
proof fn lemma_bars_in_order(k: int, lo: i64, hi: i64, bars: int)
    requires
        lo <= hi,
        0 <= k < bars,
    ensures
        lo < histogram::bin_start(k + 1, lo, hi, bars),
        histogram::bin_start(k, lo, hi, bars) <= histogram::bin_start(k + 1, lo, hi, bars),
{
    let w = hi - lo + 1;
    assert(1 <= ((k + 1) * w + bars - 1) / bars) by (nonlinear_arith)
        requires
            0 <= k,
            bars > 0,
            w > 0,
    ;
    assert((k * w + bars - 1) / bars <= ((k + 1) * w + bars - 1) / bars) by (nonlinear_arith)
        requires
            bars > 0,
            w > 0,
    ;
}

/// Without zoom, the selection is exactly the bar under the cursor.
pub proof fn law_selection_is_the_bar(s: Scrub, t: i64)
    requires
        s.wf(),
        !s.zoomed,
        s.lo <= t <= s.hi,
    ensures
        s.selection().0 <= t <= s.selection().1 <==> histogram::bin_index(
            t,
            s.lo,
            s.hi,
            s.bars as int,
        ) == s.at,
{
    histogram::law_bin_is_a_stretch_of_time(t, s.lo, s.hi, s.bars as int, s.at as int);
    lemma_bar_start(s.at as int, s.lo, s.hi, s.bars as int);
    lemma_bar_start(s.at + 1, s.lo, s.hi, s.bars as int);
    lemma_bars_in_order(s.at as int, s.lo, s.hi, s.bars as int);
}

/// Zooming in halves the axis, shows no instant that was not there, and keeps
/// the anchor in sight.
pub proof fn law_zoom_in_halves(s: Scrub)
    requires
        s.wf(),
    ensures
        s.closer().wf(),
        s.lo <= s.closer().lo,
        s.closer().hi <= s.hi,
        s.closer().hi - s.closer().lo + 1 == (s.hi - s.lo + 2) / 2,
        s.closer().lo <= s.anchor() <= s.closer().hi,
{
    let c = s.closer();
    let a = s.anchor();
    let lo = a - (a - s.lo) / 2;
    let hi = lo + (s.hi - s.lo + 2) / 2 - 1;
    histogram::lemma_bin_index(a as i64, lo as i64, hi as i64, s.bars as int);
}

/// Zooming out doubles the axis, or shows all there is.
pub proof fn law_zoom_out_doubles(s: Scrub, first: i64, last: i64)
    requires
        s.wf(),
        first <= last < i64::MAX,
    ensures
        s.wider(first, last).wf(),
        first <= s.wider(first, last).lo,
        s.wider(first, last).hi <= last,
        s.wider(first, last).zoomed ==> s.wider(first, last).hi - s.wider(first, last).lo + 1 == 2
            * (s.hi - s.lo + 1),
        !s.wider(first, last).zoomed ==> s.wider(first, last).lo == first && s.wider(
            first,
            last,
        ).hi == last,
{
    let a = s.anchor();
    let width = 2 * (s.hi - s.lo + 1);
    if width > last - first {
        histogram::lemma_bin_index(
            between(a, first as int, last as int) as i64,
            first,
            last,
            s.bars as int,
        );
    } else {
        let lo = between(a - 2 * (a - s.lo), first as int, last - width + 1);
        let hi = lo + width - 1;
        histogram::lemma_bin_index(
            between(a, lo, hi) as i64,
            lo as i64,
            hi as i64,
            s.bars as int,
        );
    }
}

/// A cursor on a timeline that is drawn anew has the new axis, and stays on its
/// bar, or on the last one where there are fewer bars now.
pub proof fn law_redrawn_cursor_stays_on_its_bar(s: Scrub, bars: int, lo: i64, hi: i64)
    ensures
        0 < bars <= u16::MAX && hi < i64::MAX ==> (Scrub::redrawn(Some(s), bars, lo, hi) matches Some(
            r,
        ) && r.lo == lo && r.hi == hi && r.bars == bars && r.zoomed == s.zoomed && r.at == (if s.at
            < bars {
            s.at as int
        } else {
            bars - 1
        })),
        bars <= 0 ==> Scrub::redrawn(Some(s), bars, lo, hi) == (if s.zoomed {
            Some(s)
        } else {
            None
        }),
        Scrub::redrawn(None, bars, lo, hi) is None,
{
}

} // verus!
