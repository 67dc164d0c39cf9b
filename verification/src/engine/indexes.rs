//! Compact, parallel arrays indexed by `line_id`.
//!
//! - `LineIndex`: line locator + length, one entry per record.
//! - `TimeIndex`: `ts_micros`; `TS_UNTIMED` for the untimed bucket.
//! - `SeverityIndex`: severity ranks.

use vstd::prelude::*;

use crate::engine::record::TS_UNTIMED;

verus! {

/// How often `x` occurs in `s`.
pub open spec fn occurrences<T>(s: Seq<T>, x: T) -> nat
    decreases s.len(),
{
    if s.len() == 0 {
        0
    } else {
        occurrences(s.drop_last(), x) + if s.last() == x {
            1nat
        } else {
            0
        }
    }
}

/// No more occurrences than elements.
pub proof fn lemma_occurrences<T>(s: Seq<T>, x: T)
    ensures
        occurrences(s, x) <= s.len(),
    decreases s.len(),
{
    if s.len() > 0 {
        lemma_occurrences(s.drop_last(), x);
    }
}

/// A single record's location inside its source.
///
/// For files, `offset` is the byte offset inside the source. For streams it is
/// meaningless and set to 0.
#[derive(Debug, Clone, Copy, PartialEq, Eq, Structural)]
pub struct LineLoc {
    pub source_id: u32,
    pub offset: u64,
    pub len: u32,
}

#[derive(Debug)]
pub struct LineIndex {
    pub locs: Vec<LineLoc>,
}

impl Default for LineIndex {
    fn default() -> (r: Self)
        ensures
            r.locs@.len() == 0,
    {
        LineIndex { locs: Vec::new() }
    }
}

impl LineIndex {
    pub fn with_capacity(cap: usize) -> (r: Self)
        ensures
            r.locs@.len() == 0,
    {
        LineIndex { locs: Vec::with_capacity(cap) }
    }

    /// Append a location and give its `line_id`.
    pub fn push(&mut self, loc: LineLoc) -> (r: u64)
        ensures
            final(self).locs@ == old(self).locs@.push(loc),
            r == old(self).locs@.len(),
    {
        let id: u64 = self.locs.len() as u64;
        self.locs.push(loc);
        id
    }

    pub fn len(&self) -> (r: usize)
        ensures
            r == self.locs@.len(),
    {
        self.locs.len()
    }

    pub fn is_empty(&self) -> (r: bool)
        ensures
            r == (self.locs@.len() == 0),
    {
        self.locs.len() == 0
    }

    pub fn get(&self, line_id: u64) -> (r: Option<&LineLoc>)
        ensures
            match r {
                Some(l) => line_id < self.locs@.len() && *l == self.locs@[line_id as int],
                None => line_id >= self.locs@.len(),
            },
    {
        if line_id < self.locs.len() as u64 {
            Some(&self.locs[line_id as usize])
        } else {
            None
        }
    }
}

#[derive(Debug)]
pub struct TimeIndex {
    pub ts: Vec<i64>,
}

impl Default for TimeIndex {
    fn default() -> (r: Self)
        ensures
            r.ts@.len() == 0,
    {
        TimeIndex { ts: Vec::new() }
    }
}

impl TimeIndex {
    pub fn with_capacity(cap: usize) -> (r: Self)
        ensures
            r.ts@.len() == 0,
    {
        TimeIndex { ts: Vec::with_capacity(cap) }
    }

    pub fn push(&mut self, ts_micros: i64)
        ensures
            final(self).ts@ == old(self).ts@.push(ts_micros),
    {
        self.ts.push(ts_micros);
    }

    pub fn len(&self) -> (r: usize)
        ensures
            r == self.ts@.len(),
    {
        self.ts.len()
    }

    pub fn is_empty(&self) -> (r: bool)
        ensures
            r == (self.ts@.len() == 0),
    {
        self.ts.len() == 0
    }

    pub fn get(&self, line_id: u64) -> (r: Option<i64>)
        ensures
            match r {
                Some(t) => line_id < self.ts@.len() && t == self.ts@[line_id as int],
                None => line_id >= self.ts@.len(),
            },
    {
        if line_id < self.ts.len() as u64 {
            Some(self.ts[line_id as usize])
        } else {
            None
        }
    }

    /// Number of records that landed in the untimed bucket.
    pub fn untimed_count(&self) -> (r: usize)
        ensures
            r == occurrences(self.ts@, TS_UNTIMED),
            r <= self.ts@.len(),
    {
        let mut n: usize = 0;
        let mut i: usize = 0;
        assert(self.ts@.take(0) =~= Seq::empty());
        while i < self.ts.len()
            invariant
                i <= self.ts@.len(),
                n <= i,
                n == occurrences(self.ts@.take(i as int), TS_UNTIMED),
            decreases self.ts@.len() - i,
        {
            assert(self.ts@.take(i + 1).drop_last() =~= self.ts@.take(i as int));
            if self.ts[i] == TS_UNTIMED {
                n = n + 1;
            }
            i = i + 1;
        }
        assert(self.ts@.take(self.ts@.len() as int) =~= self.ts@);
        n
    }
}

#[derive(Debug)]
pub struct SeverityIndex {
    pub levels: Vec<u8>,
}

impl Default for SeverityIndex {
    fn default() -> (r: Self)
        ensures
            r.levels@.len() == 0,
    {
        SeverityIndex { levels: Vec::new() }
    }
}

impl SeverityIndex {
    pub fn with_capacity(cap: usize) -> (r: Self)
        ensures
            r.levels@.len() == 0,
    {
        SeverityIndex { levels: Vec::with_capacity(cap) }
    }

    pub fn push(&mut self, level: u8)
        ensures
            final(self).levels@ == old(self).levels@.push(level),
    {
        self.levels.push(level);
    }

    pub fn len(&self) -> (r: usize)
        ensures
            r == self.levels@.len(),
    {
        self.levels.len()
    }

    pub fn is_empty(&self) -> (r: bool)
        ensures
            r == (self.levels@.len() == 0),
    {
        self.levels.len() == 0
    }

    pub fn get(&self, line_id: u64) -> (r: Option<u8>)
        ensures
            match r {
                Some(l) => line_id < self.levels@.len() && l == self.levels@[line_id as int],
                None => line_id >= self.levels@.len(),
            },
    {
        if line_id < self.levels.len() as u64 {
            Some(self.levels[line_id as usize])
        } else {
            None
        }
    }

    /// How many records have that level.
    pub fn count_of(&self, level: u8) -> (r: usize)
        ensures
            r == occurrences(self.levels@, level),
            r <= self.levels@.len(),
    {
        let mut n: usize = 0;
        let mut i: usize = 0;
        assert(self.levels@.take(0) =~= Seq::empty());
        while i < self.levels.len()
            invariant
                i <= self.levels@.len(),
                n <= i,
                n == occurrences(self.levels@.take(i as int), level),
            decreases self.levels@.len() - i,
        {
            assert(self.levels@.take(i + 1).drop_last() =~= self.levels@.take(i as int));
            if self.levels[i] == level {
                n = n + 1;
            }
            i = i + 1;
        }
        assert(self.levels@.take(self.levels@.len() as int) =~= self.levels@);
        n
    }
}

/// What is kept of the other values is all but the occurrences of one.
pub proof fn lemma_occurrences_filter<T>(s: Seq<T>, x: T, other: spec_fn(T) -> bool)
    requires
        forall|y: T| #[trigger] other(y) <==> y != x,
    ensures
        s.filter(other).len() == s.len() - occurrences(s, x),
    decreases s.len(),
{
    reveal(Seq::filter);
    if s.len() > 0 {
        lemma_occurrences_filter(s.drop_last(), x, other);
    }
}

} // verus!
