//! Bookmarks of a view: ascending ids, toggled and walked at the cursor.

use vstd::prelude::*;

use crate::panes::table;

verus! {

/// Bookmarks after a toggle at the cursor.
pub open spec fn toggled(marks: Seq<u64>, cursor: u64) -> Seq<u64> {
    let i = table::bound(marks, cursor);
    if i < marks.len() && marks[i] == cursor {
        marks.remove(i)
    } else {
        marks.insert(i, cursor)
    }
}

/// The first bookmark after the cursor; the first of all when there is none.
pub open spec fn next_mark(marks: Seq<u64>, cursor: u64) -> u64 {
    let i = table::bound(marks, cursor);
    let j = if i < marks.len() && marks[i] == cursor {
        i + 1
    } else {
        i
    };
    if j < marks.len() {
        marks[j]
    } else {
        marks[0]
    }
}

proof fn lemma_removed(marks: Seq<u64>, i: int, x: u64)
    requires
        table::ascending(marks),
        0 <= i < marks.len(),
    ensures
        table::ascending(marks.remove(i)),
        marks.remove(i).contains(x) <==> x != marks[i] && marks.contains(x),
{
    let t = marks.remove(i);
    assert(forall|k: int| 0 <= k < i ==> t[k] == marks[k]);
    assert(forall|k: int| i <= k < t.len() ==> t[k] == marks[k + 1]);
    if t.contains(x) {
        let k = choose|k: int| 0 <= k < t.len() && t[k] == x;
        if k < i {
            assert(marks[k] == x);
        } else {
            assert(marks[k + 1] == x);
        }
    }
    if x != marks[i] && marks.contains(x) {
        let k = choose|k: int| 0 <= k < marks.len() && marks[k] == x;
        if k < i {
            assert(t[k] == x);
        } else {
            assert(t[k - 1] == x);
        }
    }
}

proof fn lemma_inserted(marks: Seq<u64>, i: int, cursor: u64, x: u64)
    requires
        table::ascending(marks),
        0 <= i <= marks.len(),
        forall|k: int| 0 <= k < i ==> #[trigger] marks[k] < cursor,
        forall|k: int| i <= k < marks.len() ==> cursor < #[trigger] marks[k],
    ensures
        table::ascending(marks.insert(i, cursor)),
        marks.insert(i, cursor).contains(x) <==> x == cursor || marks.contains(x),
{
    let t = marks.insert(i, cursor);
    assert(forall|k: int| 0 <= k < i ==> t[k] == marks[k]);
    assert(t[i] == cursor);
    assert(forall|k: int| i < k < t.len() ==> t[k] == marks[k - 1]);
    if t.contains(x) {
        let k = choose|k: int| 0 <= k < t.len() && t[k] == x;
        if k < i {
            assert(marks[k] == x);
        } else if k > i {
            assert(marks[k - 1] == x);
        }
    }
    if marks.contains(x) {
        let k = choose|k: int| 0 <= k < marks.len() && marks[k] == x;
        if k < i {
            assert(t[k] == x);
        } else {
            assert(t[k + 1] == x);
        }
    }
}

/// A toggle keeps the order, and changes the mark at the cursor and no other.
pub proof fn law_toggle_flips_one_mark(marks: Seq<u64>, cursor: u64)
    requires
        table::ascending(marks),
    ensures
        table::ascending(toggled(marks, cursor)),
        toggled(marks, cursor).contains(cursor) <==> !marks.contains(cursor),
        forall|x: u64|
            x != cursor ==> (#[trigger] toggled(marks, cursor).contains(x) <==> marks.contains(x)),
{
    table::lemma_bound(marks, cursor);
    let i = table::bound(marks, cursor);
    if i < marks.len() && marks[i] == cursor {
        assert(marks.contains(cursor));
        lemma_removed(marks, i, cursor);
        assert forall|x: u64| x != cursor implies (#[trigger] toggled(marks, cursor).contains(x)
            <==> marks.contains(x)) by {
            lemma_removed(marks, i, x);
        }
    } else {
        assert forall|k: int| i <= k < marks.len() implies cursor < #[trigger] marks[k] by {
            if k > i {
                assert(marks[i] < marks[k]);
            }
        }
        assert(!marks.contains(cursor)) by {
            if marks.contains(cursor) {
                let k = choose|k: int| 0 <= k < marks.len() && marks[k] == cursor;
                assert(marks[k] == cursor);
            }
        }
        lemma_inserted(marks, i, cursor, cursor);
        assert forall|x: u64| x != cursor implies (#[trigger] toggled(marks, cursor).contains(x)
            <==> marks.contains(x)) by {
            lemma_inserted(marks, i, cursor, x);
        }
    }
}

/// Two toggles at one place undo each other.
pub proof fn law_toggle_twice_is_nothing(marks: Seq<u64>, cursor: u64)
    requires
        table::ascending(marks),
    ensures
        toggled(toggled(marks, cursor), cursor) =~= marks,
{
    law_toggle_flips_one_mark(marks, cursor);
    table::lemma_bound(marks, cursor);
    let i = table::bound(marks, cursor);
    let t = toggled(marks, cursor);
    if i < marks.len() && marks[i] == cursor {
        assert forall|k: int| 0 <= k < i implies #[trigger] t[k] < cursor by {
            assert(t[k] == marks[k]);
        }
        assert forall|k: int| i <= k < t.len() implies cursor <= #[trigger] t[k] by {
            assert(t[k] == marks[k + 1]);
            assert(marks[i] < marks[k + 1]);
        }
        table::lemma_bound_is(t, cursor, i);
        assert(i < t.len() ==> t[i] == marks[i + 1] && marks[i] < marks[i + 1]);
    } else {
        assert forall|k: int| 0 <= k < i implies #[trigger] t[k] < cursor by {
            assert(t[k] == marks[k]);
        }
        assert forall|k: int| i <= k < t.len() implies cursor <= #[trigger] t[k] by {
            if k > i {
                assert(t[k] == marks[k - 1]);
            }
        }
        table::lemma_bound_is(t, cursor, i);
    }
}

/// The next bookmark is one of the bookmarks. If any is after the cursor, it
/// is the first of those; otherwise it is the first of all.
pub proof fn law_next_mark_cycles(marks: Seq<u64>, cursor: u64)
    requires
        table::ascending(marks),
        marks.len() > 0,
    ensures
        marks.contains(next_mark(marks, cursor)),
        forall|x: u64|
            #![trigger marks.contains(x)]
            marks.contains(x) && x > cursor ==> cursor < next_mark(marks, cursor) <= x,
        (forall|x: u64| #[trigger] marks.contains(x) ==> x <= cursor) ==> next_mark(marks, cursor)
            == marks[0],
{
    table::lemma_bound(marks, cursor);
    let i = table::bound(marks, cursor);
    let j = if i < marks.len() && marks[i] == cursor {
        i + 1
    } else {
        i
    };
    if j < marks.len() {
        assert(marks[j] > cursor) by {
            if j == i + 1 {
                assert(marks[i] < marks[j]);
            }
        }
        assert(marks.contains(marks[j]));
    } else {
        assert(marks[0] == next_mark(marks, cursor));
    }
    assert forall|x: u64| #![trigger marks.contains(x)] marks.contains(x) && x > cursor implies cursor
        < next_mark(marks, cursor) <= x by {
        let k = choose|k: int| 0 <= k < marks.len() && marks[k] == x;
        if k > j {
            assert(marks[j] < marks[k]);
        }
    }
}

/// Some ids as bookmarks: each once, in ascending order.
pub open spec fn sorted_marks(ids: Seq<u64>) -> Seq<u64>
    decreases ids.len(),
{
    if ids.len() == 0 {
        Seq::empty()
    } else {
        let before = sorted_marks(ids.drop_last());
        if before.contains(ids.last()) {
            before
        } else {
            toggled(before, ids.last())
        }
    }
}

/// The bookmarks made of some ids are those ids, in ascending order.
pub proof fn law_sorted_marks_keep_every_id(ids: Seq<u64>)
    ensures
        table::ascending(sorted_marks(ids)),
        forall|x: u64| #[trigger] sorted_marks(ids).contains(x) <==> ids.contains(x),
    decreases ids.len(),
{
    if ids.len() > 0 {
        let prev = ids.drop_last();
        let last = ids.last();
        law_sorted_marks_keep_every_id(prev);
        let before = sorted_marks(prev);
        law_toggle_flips_one_mark(before, last);
        assert forall|x: u64| #[trigger] sorted_marks(ids).contains(x) <==> ids.contains(x) by {
            assert(ids.contains(x) <==> prev.contains(x) || x == last) by {
                if ids.contains(x) {
                    let k = choose|k: int| 0 <= k < ids.len() && ids[k] == x;
                    if k < prev.len() {
                        assert(prev[k] == x);
                    }
                }
                if prev.contains(x) {
                    let k = choose|k: int| 0 <= k < prev.len() && prev[k] == x;
                    assert(ids[k] == x);
                }
                assert(ids[ids.len() - 1] == last);
            }
            assert(before.contains(x) <==> prev.contains(x));
        }
    }
}

/// Bookmarks that were kept come back as they were.
pub proof fn law_kept_marks_come_back(marks: Seq<u64>)
    requires
        table::ascending(marks),
    ensures
        sorted_marks(marks) =~= marks,
    decreases marks.len(),
{
    if marks.len() > 0 {
        let prev = marks.drop_last();
        let last = marks.last();
        assert forall|i: int, j: int| 0 <= i < j < prev.len() implies prev[i] < prev[j] by {
            assert(marks[i] < marks[j]);
        }
        law_kept_marks_come_back(prev);
        assert forall|i: int| 0 <= i < prev.len() implies #[trigger] prev[i] < last by {
            assert(marks[i] < marks[marks.len() - 1]);
        }
        table::lemma_bound_is(prev, last, prev.len() as int);
        assert(!prev.contains(last));
        assert(prev.insert(prev.len() as int, last) =~= marks);
    }
}

/// Some ids as bookmarks.
pub fn sort_marks(ids: &Vec<u64>) -> (r: Vec<u64>)
    ensures
        r@ == sorted_marks(ids@),
        table::ascending(r@),
{
    let mut out: Vec<u64> = Vec::new();
    let mut i: usize = 0;
    assert(ids@.take(0) =~= Seq::empty());
    assert(out@ =~= Seq::empty());
    while i < ids.len()
        invariant
            i <= ids@.len(),
            out@ == sorted_marks(ids@.take(i as int)),
        decreases ids@.len() - i,
    {
        let ghost part = ids@.take(i + 1);
        assert(part.drop_last() =~= ids@.take(i as int));
        let id: u64 = ids[i];
        proof {
            law_sorted_marks_keep_every_id(ids@.take(i as int));
            table::lemma_bound(out@, id);
        }
        let at: usize = table::lower_bound(out.as_slice(), id);
        if at < out.len() && out[at] == id {
            assert(out@.contains(id));
        } else {
            proof {
                law_toggle_flips_one_mark(out@, id);
                assert(toggled(out@, id)[at as int] == id);
                assert(toggled(out@, id).contains(id));
            }
            out.insert(at, id);
        }
        i = i + 1;
    }
    proof {
        assert(ids@.take(ids@.len() as int) =~= ids@);
        law_sorted_marks_keep_every_id(ids@);
    }
    out
}

} // verus!
