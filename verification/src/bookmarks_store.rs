//! Persistent bookmarks: what the sidecar keeps of each source.
//!
//! Bookmarks are line ids. For a single-file source they coincide with file
//! order, so as long as the file only grows the saved ids still point at the
//! same records on the next open. To know that, the inode and the size at save
//! time are kept beside them: if the inode changed (rotated) or the file
//! shrank (truncated, rewritten), the saved ids are stale and dropped.
//!
//! - Single file only: merged sources, stdin and pipes have no stable identity.
//! - Per tab: a tab is identified by its index.
//! - Bounded: at most [`MAX_SOURCES`] sources; the least recently touched go.

use vstd::prelude::*;

use crate::app;
use crate::order;
use crate::string_map;
use crate::string_map::StringMap;
use crate::text;

verus! {

pub const MAX_SOURCES: usize = 256;

#[derive(Debug)]
pub struct SourceEntry {
    pub inode: u64,
    /// File size at the moment of save.
    pub size: u64,
    /// Bookmarked line ids per tab. There may be fewer lists than tabs, or
    /// more.
    pub tabs: Vec<Vec<u64>>,
    /// RFC 3339 of when this entry was last touched.
    pub updated: String,
}

#[derive(Debug)]
pub struct Sidecar {
    /// Indexed by canonical source path.
    pub sources: StringMap<SourceEntry>,
}

impl Default for Sidecar {
    fn default() -> (r: Self)
        ensures
            r.wf(),
            r.sources@ == Map::<Seq<char>, SourceEntry>::empty(),
            r.sources.listed().len() == 0,
    {
        Sidecar { sources: StringMap::new() }
    }
}

/// An entry was touched before another.
pub open spec fn older(a: SourceEntry, b: SourceEntry) -> bool {
    order::lex_less(text::enc(a.updated@), text::enc(b.updated@))
}

/// An entry still belongs to a file: the same inode, and not shorter than it
/// was.
pub open spec fn is_current(e: SourceEntry, inode: u64, size: u64) -> bool {
    e.inode == inode && e.size <= size
}

/// No tab has a bookmark.
pub open spec fn no_marks(tabs: Seq<Vec<u64>>) -> bool {
    forall|i: int| 0 <= i < tabs.len() ==> (#[trigger] tabs[i])@.len() == 0
}

/// Some sources were dropped: what is left is as it was, and none of it is
/// older than what went.
pub open spec fn thinned(
    before: Map<Seq<char>, SourceEntry>,
    after: Map<Seq<char>, SourceEntry>,
) -> bool {
    &&& after.submap_of(before)
    &&& forall|gone: Seq<char>, kept: Seq<char>|
        #![trigger before.contains_key(gone), after.contains_key(kept)]
        before.contains_key(gone) && !after.contains_key(gone) && after.contains_key(kept)
            ==> !older(after[kept], before[gone])
}

impl Sidecar {
    pub open spec fn wf(self) -> bool {
        self.sources.wf()
    }

    /// Look up bookmarks for a source: the lists per tab if the inode is the
    /// same and the file has not shrunk. On a mismatch the stale entry is
    /// removed.
    pub fn restore(
        &mut self,
        canonical_path: &str,
        current_inode: u64,
        current_size: u64,
    ) -> (r: Option<Vec<Vec<u64>>>)
        requires
            old(self).wf(),
        ensures
            final(self).wf(),
            ({
                let m = old(self).sources@;
                let k = canonical_path@;
                if !m.contains_key(k) {
                    r is None && final(self).sources@ == m
                } else if is_current(m[k], current_inode, current_size) {
                    &&& r matches Some(tabs) && app::id_lists(tabs@) == app::id_lists(m[k].tabs@)
                    &&& final(self).sources@ == m
                } else {
                    r is None && final(self).sources@ == m.remove(k)
                }
            }),
            final(self).sources.listed().len() <= old(self).sources.listed().len(),
    {
        let found: Option<Vec<Vec<u64>>> = match self.sources.get(canonical_path) {
            None => {
                return None;
            },
            Some(e) => if e.inode == current_inode && e.size <= current_size {
                Some(copy_lists(&e.tabs))
            } else {
                None
            },
        };
        if found.is_none() {
            self.sources.remove(canonical_path);
        }
        found
    }

    /// Insert or update an entry. One without bookmarks is removed instead.
    /// Past [`MAX_SOURCES`] the least recently touched are dropped.
    pub fn upsert(
        &mut self,
        canonical_path: &str,
        inode: u64,
        size: u64,
        tabs: Vec<Vec<u64>>,
        now_rfc3339: &str,
    )
        requires
            old(self).wf(),
        ensures
            final(self).wf(),
            no_marks(tabs@) ==> final(self).sources@ == old(self).sources@.remove(canonical_path@),
            !no_marks(tabs@) ==> exists|e: SourceEntry|
                {
                    &&& e.inode == inode
                    &&& e.size == size
                    &&& e.tabs == tabs
                    &&& e.updated@ == now_rfc3339@
                    &&& #[trigger] old(self).upserted(canonical_path@, e, *final(self))
                },
            old(self).sources.listed().len() <= MAX_SOURCES ==> final(self).sources.listed().len()
                <= MAX_SOURCES,
    {
        if lists_empty(&tabs) {
            self.sources.remove(canonical_path);
            return;
        }
        let e: SourceEntry = SourceEntry { inode, size, tabs, updated: now_rfc3339.to_owned() };
        self.sources.insert(canonical_path, e);
        self.evict_if_oversize();
        assert(old(self).upserted(canonical_path@, e, *self));
    }

    /// An entry was put in, and the oldest were dropped where there were too
    /// many.
    pub open spec fn upserted(self, path: Seq<char>, e: SourceEntry, after: Sidecar) -> bool {
        let m = self.sources@.insert(path, e);
        let n = self.sources.listed().len() + if self.sources@.contains_key(path) {
            0int
        } else {
            1
        };
        if n <= MAX_SOURCES {
            after.sources@ == m
        } else {
            thinned(m, after.sources@) && after.sources.listed().len() == MAX_SOURCES
        }
    }

    fn evict_if_oversize(&mut self)
        requires
            old(self).wf(),
        ensures
            final(self).wf(),
            old(self).sources.listed().len() <= MAX_SOURCES ==> final(self).sources@
                == old(self).sources@ && final(self).sources.listed().len()
                == old(self).sources.listed().len(),
            old(self).sources.listed().len() > MAX_SOURCES ==> thinned(
                old(self).sources@,
                final(self).sources@,
            ) && final(self).sources.listed().len() == MAX_SOURCES,
    {
        let ghost before = self.sources@;
        while self.sources.len() > MAX_SOURCES
            invariant
                self.wf(),
                before == old(self).sources@,
                thinned(before, self.sources@),
                self.sources.listed().len() <= old(self).sources.listed().len(),
                old(self).sources.listed().len() <= MAX_SOURCES ==> self.sources@ == before
                    && self.sources.listed().len() == old(self).sources.listed().len(),
                old(self).sources.listed().len() > MAX_SOURCES ==> self.sources.listed().len()
                    >= MAX_SOURCES,
            decreases self.sources.listed().len(),
        {
            let ghost mid = self.sources@;
            let oldest: String = self.oldest();
            self.sources.remove(oldest.as_str());
            proof {
                let after = self.sources@;
                assert(after.submap_of(before));
                assert forall|gone: Seq<char>, kept: Seq<char>|
                    #![trigger before.contains_key(gone), after.contains_key(kept)]
                    before.contains_key(gone) && !after.contains_key(gone) && after.contains_key(
                        kept,
                    ) implies !older(after[kept], before[gone]) by {
                    assert(mid.contains_key(kept));
                    if gone == oldest@ {
                        assert(!older(mid[kept], mid[oldest@]));
                    } else {
                        assert(!mid.contains_key(gone));
                    }
                }
            }
        }
    }

    /// A source that none was touched before.
    fn oldest(&self) -> (r: String)
        requires
            self.wf(),
            self.sources.listed().len() > 0,
        ensures
            self.sources@.contains_key(r@),
            forall|k: Seq<char>| #[trigger]
                self.sources@.contains_key(k) ==> !older(self.sources@[k], self.sources@[r@]),
    {
        let ghost listed = self.sources.listed();
        let mut best: usize = 0;
        let mut i: usize = 1;
        proof {
            self.sources.lemma_listed();
            order::lemma_lex_total(
                text::enc(listed[0].1.updated@),
                text::enc(listed[0].1.updated@),
            );
        }
        while i < self.sources.len()
            invariant
                listed == self.sources.listed(),
                1 <= i <= listed.len(),
                best < i,
                forall|k: int| 0 <= k < i ==> !older((#[trigger] listed[k]).1, listed[best as int].1),
            decreases listed.len() - i,
        {
            let a: &[u8] = self.sources.entry(i).1.updated.as_str().as_bytes();
            let b: &[u8] = self.sources.entry(best).1.updated.as_str().as_bytes();
            let ghost was = best as int;
            if order::lex_before(a, b) {
                best = i;
            }
            proof {
                let x = text::enc(listed[i as int].1.updated@);
                let y = text::enc(listed[was].1.updated@);
                order::lemma_lex_total(x, y);
                order::lemma_lex_total(x, x);
                assert forall|k: int| 0 <= k < i + 1 implies !older(
                    (#[trigger] listed[k]).1,
                    listed[best as int].1,
                ) by {
                    if k < i && best == i {
                        let z = text::enc(listed[k].1.updated@);
                        if order::lex_less(z, x) {
                            order::lemma_lex_transitive(z, x, y);
                        }
                    }
                }
            }
            i = i + 1;
        }
        proof {
            string_map::lemma_entry(listed, best as int);
            assert forall|k: Seq<char>| #[trigger] self.sources@.contains_key(k) implies !older(
                self.sources@[k],
                listed[best as int].1,
            ) by {
                let j = choose|j: int| string_map::key_at(listed, k, j);
                string_map::lemma_entry(listed, j);
            }
        }
        self.sources.entry(best).0.clone()
    }
}

fn lists_empty(tabs: &Vec<Vec<u64>>) -> (r: bool)
    ensures
        r == no_marks(tabs@),
{
    let mut i: usize = 0;
    while i < tabs.len()
        invariant
            i <= tabs@.len(),
            forall|k: int| 0 <= k < i ==> (#[trigger] tabs@[k])@.len() == 0,
        decreases tabs@.len() - i,
    {
        if tabs[i].len() > 0 {
            return false;
        }
        i = i + 1;
    }
    true
}

fn copy_lists(lists: &Vec<Vec<u64>>) -> (r: Vec<Vec<u64>>)
    ensures
        app::id_lists(r@) == app::id_lists(lists@),
{
    let mut out: Vec<Vec<u64>> = Vec::new();
    let mut i: usize = 0;
    while i < lists.len()
        invariant
            i <= lists@.len(),
            out@.len() == i,
            forall|k: int| 0 <= k < i ==> (#[trigger] out@[k])@ == lists@[k]@,
        decreases lists@.len() - i,
    {
        out.push(app::copy_ids(&lists[i]));
        i = i + 1;
    }
    assert(app::id_lists(out@) =~= app::id_lists(lists@));
    out
}

/// What was saved of a source is there afterwards, if there was room; with it
/// the bookmarks come back exactly when the file keeps its inode and has not
/// shrunk.
pub proof fn law_saved_marks_are_kept(
    before: Sidecar,
    path: Seq<char>,
    e: SourceEntry,
    after: Sidecar,
    inode: u64,
    size: u64,
)
    requires
        before.upserted(path, e, after),
        before.sources.listed().len() < MAX_SOURCES || before.sources@.contains_key(path)
            && before.sources.listed().len() <= MAX_SOURCES,
    ensures
        after.sources@.contains_key(path),
        after.sources@[path] == e,
        is_current(after.sources@[path], inode, size) <==> inode == e.inode && size >= e.size,
{
}

/// Past the limit, what was just saved stays if every other entry is older.
pub proof fn law_newest_is_not_dropped(
    before: Sidecar,
    path: Seq<char>,
    e: SourceEntry,
    after: Sidecar,
    other: Seq<char>,
)
    requires
        before.upserted(path, e, after),
        after.sources@.contains_key(other),
        forall|k: Seq<char>| #[trigger]
            before.sources@.contains_key(k) && k != path ==> older(before.sources@[k], e),
    ensures
        after.sources@.contains_key(path) && after.sources@[path] == e,
{
    let m = before.sources@.insert(path, e);
    assert(m.contains_key(path));
    if !after.sources@.contains_key(path) {
        assert(other != path);
        assert(m.contains_key(other));
        assert(before.sources@.contains_key(other));
        assert(!older(after.sources@[other], m[path]));
    }
}

/// The store holds at most 256 sources. What it drops for room is what was
/// touched first: nothing that stays carries an earlier time.
pub proof fn law_oldest_sources_are_dropped(
    before: Sidecar,
    path: Seq<char>,
    e: SourceEntry,
    after: Sidecar,
    gone: Seq<char>,
    kept: Seq<char>,
)
    requires
        before.upserted(path, e, after),
        before.sources@.insert(path, e).contains_key(gone),
        !after.sources@.contains_key(gone),
        after.sources@.contains_key(kept),
    ensures
        ({
            let all = before.sources@.insert(path, e);
            &&& after.sources@[kept] == all[kept]
            &&& !order::lex_less(
                text::enc(after.sources@[kept].updated@),
                text::enc(all[gone].updated@),
            )
            &&& after.sources.listed().len() == 256
        }),
{
    let all = before.sources@.insert(path, e);
    let n = before.sources.listed().len() + if before.sources@.contains_key(path) {
        0int
    } else {
        1
    };
    assert(n > MAX_SOURCES);
    assert(thinned(all, after.sources@));
    assert(all.contains_key(gone) && after.sources@.contains_key(kept));
    assert(after.sources@.dom().contains(kept) && all.dom().contains(kept));
    assert(!older(after.sources@[kept], all[gone]));
}

} // verus!
