//! A map from strings, kept as a list of entries with distinct keys.

use vstd::prelude::*;

use crate::text;

verus! {

/// No two entries share a key.
pub open spec fn distinct<V>(e: Seq<(String, V)>) -> bool {
    forall|i: int, j: int| 0 <= i < j < e.len() ==> (#[trigger] e[i]).0@ != (#[trigger] e[j]).0@
}

/// `k` is the key of entry `i`.
pub open spec fn key_at<V>(e: Seq<(String, V)>, k: Seq<char>, i: int) -> bool {
    0 <= i < e.len() && e[i].0@ == k
}

/// The entries as a map.
pub open spec fn map_of<V>(e: Seq<(String, V)>) -> Map<Seq<char>, V> {
    Map::new(
        |k: Seq<char>| exists|i: int| key_at(e, k, i),
        |k: Seq<char>| e[choose|i: int| key_at(e, k, i)].1,
    )
}

/// An entry is in the map of its list.
pub proof fn lemma_entry<V>(e: Seq<(String, V)>, i: int)
    requires
        distinct(e),
        0 <= i < e.len(),
    ensures
        map_of(e).contains_key(e[i].0@),
        map_of(e)[e[i].0@] == e[i].1,
{
    let k = e[i].0@;
    assert(key_at(e, k, i));
    let j = choose|j: int| key_at(e, k, j);
    assert(key_at(e, k, j));
    if j < i {
        assert(e[j].0@ != e[i].0@);
    } else if i < j {
        assert(e[i].0@ != e[j].0@);
    }
}

/// A new key at the end extends the map.
pub proof fn lemma_push<V>(e: Seq<(String, V)>, x: (String, V))
    requires
        distinct(e),
        !map_of(e).contains_key(x.0@),
    ensures
        distinct(e.push(x)),
        map_of(e.push(x)) == map_of(e).insert(x.0@, x.1),
{
    let p = e.push(x);
    assert forall|i: int, j: int| 0 <= i < j < p.len() implies (#[trigger] p[i]).0@
        != (#[trigger] p[j]).0@ by {
        if j == e.len() {
            assert(key_at(e, p[i].0@, i));
        }
    }
    assert forall|k: Seq<char>| #[trigger]
        map_of(p).contains_key(k) <==> map_of(e).insert(x.0@, x.1).contains_key(k) by {
        if map_of(p).contains_key(k) {
            let i = choose|i: int| key_at(p, k, i);
            assert(i == e.len() || key_at(e, k, i));
        }
        if map_of(e).contains_key(k) {
            let i = choose|i: int| key_at(e, k, i);
            assert(key_at(p, k, i));
        }
        assert(key_at(p, x.0@, e.len() as int));
    }
    assert forall|k: Seq<char>| #[trigger] map_of(p).contains_key(k) implies map_of(p)[k]
        == map_of(e).insert(x.0@, x.1)[k] by {
        let i = choose|i: int| key_at(p, k, i);
        lemma_entry(p, i);
        if i < e.len() {
            lemma_entry(e, i);
        }
    }
    assert(map_of(p) =~= map_of(e).insert(x.0@, x.1));
}

/// Replacing the value of an entry updates the map.
pub proof fn lemma_update<V>(e: Seq<(String, V)>, i: int, x: (String, V))
    requires
        distinct(e),
        0 <= i < e.len(),
        x.0@ == e[i].0@,
    ensures
        distinct(e.update(i, x)),
        map_of(e.update(i, x)) == map_of(e).insert(x.0@, x.1),
{
    let p = e.update(i, x);
    assert forall|a: int, b: int| 0 <= a < b < p.len() implies (#[trigger] p[a]).0@
        != (#[trigger] p[b]).0@ by {
        assert(e[a].0@ != e[b].0@);
    }
    assert forall|k: Seq<char>| #[trigger]
        map_of(p).contains_key(k) <==> map_of(e).insert(x.0@, x.1).contains_key(k) by {
        if map_of(p).contains_key(k) {
            let j = choose|j: int| key_at(p, k, j);
            assert(key_at(e, k, j));
        }
        if map_of(e).contains_key(k) {
            let j = choose|j: int| key_at(e, k, j);
            assert(key_at(p, k, j));
        }
        assert(key_at(p, x.0@, i));
    }
    assert forall|k: Seq<char>| #[trigger] map_of(p).contains_key(k) implies map_of(p)[k]
        == map_of(e).insert(x.0@, x.1)[k] by {
        let j = choose|j: int| key_at(p, k, j);
        lemma_entry(p, j);
        lemma_entry(e, j);
        if j != i {
            if j < i {
                assert(e[j].0@ != e[i].0@);
            } else {
                assert(e[i].0@ != e[j].0@);
            }
        }
    }
    assert(map_of(p) =~= map_of(e).insert(x.0@, x.1));
}

/// Dropping an entry drops its key from the map.
pub proof fn lemma_remove<V>(e: Seq<(String, V)>, i: int)
    requires
        distinct(e),
        0 <= i < e.len(),
    ensures
        distinct(e.remove(i)),
        map_of(e.remove(i)) == map_of(e).remove(e[i].0@),
{
    let p = e.remove(i);
    assert forall|a: int, b: int| 0 <= a < b < p.len() implies (#[trigger] p[a]).0@
        != (#[trigger] p[b]).0@ by {
        let a1 = if a < i {
            a
        } else {
            a + 1
        };
        let b1 = if b < i {
            b
        } else {
            b + 1
        };
        assert(e[a1].0@ != e[b1].0@);
    }
    assert forall|k: Seq<char>| #[trigger]
        map_of(p).contains_key(k) <==> map_of(e).remove(e[i].0@).contains_key(k) by {
        if map_of(p).contains_key(k) {
            let j = choose|j: int| key_at(p, k, j);
            let j1 = if j < i {
                j
            } else {
                j + 1
            };
            assert(key_at(e, k, j1));
            if j1 < i {
                assert(e[j1].0@ != e[i].0@);
            } else {
                assert(e[i].0@ != e[j1].0@);
            }
        }
        if map_of(e).contains_key(k) && k != e[i].0@ {
            let j = choose|j: int| key_at(e, k, j);
            let j1 = if j < i {
                j
            } else {
                j - 1
            };
            assert(key_at(p, k, j1));
        }
    }
    assert forall|k: Seq<char>| #[trigger] map_of(p).contains_key(k) implies map_of(p)[k]
        == map_of(e).remove(e[i].0@)[k] by {
        let j = choose|j: int| key_at(p, k, j);
        lemma_entry(p, j);
        let j1 = if j < i {
            j
        } else {
            j + 1
        };
        lemma_entry(e, j1);
    }
    assert(map_of(p) =~= map_of(e).remove(e[i].0@));
}

/// Lists with the same elements contain the same elements.
proof fn lemma_same_elements<A>(a: Seq<A>, b: Seq<A>, x: A)
    requires
        a.to_multiset() == b.to_multiset(),
        b.contains(x),
    ensures
        a.contains(x),
{
    vstd::seq_lib::to_multiset_contains(a, x);
    vstd::seq_lib::to_multiset_contains(b, x);
}

/// Rearranging the entries keeps the map.
pub proof fn lemma_permuted<V>(a: Seq<(String, V)>, b: Seq<(String, V)>)
    requires
        distinct(a),
        a.to_multiset() == b.to_multiset(),
    ensures
        distinct(b),
        map_of(b) == map_of(a),
{
    broadcast use vstd::seq_lib::group_to_multiset_ensures;

    assert(a.no_duplicates()) by {
        assert forall|i: int, j: int| 0 <= i < a.len() && 0 <= j < a.len() && i != j implies a[i]
            != a[j] by {
            if i < j {
                assert(a[i].0@ != a[j].0@);
            } else {
                assert(a[j].0@ != a[i].0@);
            }
        }
    }
    a.lemma_multiset_has_no_duplicates();
    assert forall|x: (String, V)| b.to_multiset().contains(x) implies b.to_multiset().count(x)
        == 1 by {
        assert(a.to_multiset().contains(x));
    }
    b.lemma_multiset_has_no_duplicates_conv();
    assert forall|i: int, j: int| 0 <= i < j < b.len() implies (#[trigger] b[i]).0@
        != (#[trigger] b[j]).0@ by {
        assert(b.contains(b[i]) && b.contains(b[j]));
        lemma_same_elements(a, b, b[i]);
        lemma_same_elements(a, b, b[j]);
        let p = choose|p: int| 0 <= p < a.len() && a[p] == b[i];
        let q = choose|q: int| 0 <= q < a.len() && a[q] == b[j];
        assert(b[i] != b[j]);
        if p < q {
            assert(a[p].0@ != a[q].0@);
        } else {
            assert(a[q].0@ != a[p].0@);
        }
    }
    assert forall|k: Seq<char>| #[trigger]
        map_of(b).contains_key(k) <==> map_of(a).contains_key(k) by {
        if map_of(b).contains_key(k) {
            let i = choose|i: int| key_at(b, k, i);
            assert(b.contains(b[i]));
            lemma_same_elements(a, b, b[i]);
            let p = choose|p: int| 0 <= p < a.len() && a[p] == b[i];
            assert(key_at(a, k, p));
        }
        if map_of(a).contains_key(k) {
            let i = choose|i: int| key_at(a, k, i);
            assert(a.contains(a[i]));
            lemma_same_elements(b, a, a[i]);
            let p = choose|p: int| 0 <= p < b.len() && b[p] == a[i];
            assert(key_at(b, k, p));
        }
    }
    assert forall|k: Seq<char>| #[trigger] map_of(b).contains_key(k) implies map_of(b)[k] == map_of(
        a,
    )[k] by {
        let i = choose|i: int| key_at(b, k, i);
        lemma_entry(b, i);
        assert(b.contains(b[i]));
        lemma_same_elements(a, b, b[i]);
        let p = choose|p: int| 0 <= p < a.len() && a[p] == b[i];
        lemma_entry(a, p);
    }
    assert(map_of(b) =~= map_of(a));
}

/// A map from strings.
#[derive(Debug)]
pub struct StringMap<V> {
    entries: Vec<(String, V)>,
}

impl<V> View for StringMap<V> {
    type V = Map<Seq<char>, V>;

    closed spec fn view(&self) -> Map<Seq<char>, V> {
        map_of(self.entries@)
    }
}

impl<V> StringMap<V> {
    pub closed spec fn wf(self) -> bool {
        distinct(self.entries@)
    }

    /// The entries in the order in which their keys were added.
    pub closed spec fn listed(self) -> Seq<(String, V)> {
        self.entries@
    }

    pub proof fn lemma_listed(self)
        ensures
            self.wf() ==> distinct(self.listed()),
            map_of(self.listed()) == self@,
    {
    }

    pub fn new() -> (r: Self)
        ensures
            r.wf(),
            r@ == Map::<Seq<char>, V>::empty(),
            r.listed().len() == 0,
    {
        let r = StringMap { entries: Vec::new() };
        assert(map_of(r.entries@) =~= Map::empty());
        r
    }

    pub fn len(&self) -> (r: usize)
        ensures
            r == self.listed().len(),
    {
        self.entries.len()
    }

    pub fn is_empty(&self) -> (r: bool)
        ensures
            r == (self.listed().len() == 0),
    {
        self.entries.len() == 0
    }

    /// Where the entry of a key stands.
    pub fn position(&self, key: &str) -> (r: Option<usize>)
        requires
            self.wf(),
        ensures
            match r {
                Some(i) => i < self.listed().len() && self.listed()[i as int].0@ == key@
                    && self@.contains_key(key@) && self@[key@] == self.listed()[i as int].1,
                None => !self@.contains_key(key@),
            },
    {
        let mut i: usize = 0;
        while i < self.entries.len()
            invariant
                i <= self.entries@.len(),
                self.wf(),
                forall|k: int| 0 <= k < i ==> (#[trigger] self.entries@[k]).0@ != key@,
            decreases self.entries@.len() - i,
        {
            if text::str_eq(self.entries[i].0.as_str(), key) {
                proof {
                    lemma_entry(self.entries@, i as int);
                }
                return Some(i);
            }
            i = i + 1;
        }
        proof {
            if self@.contains_key(key@) {
                let j = choose|j: int| key_at(self.entries@, key@, j);
                assert(self.entries@[j].0@ != key@);
            }
        }
        None
    }

    pub fn contains_key(&self, key: &str) -> (r: bool)
        requires
            self.wf(),
        ensures
            r == self@.contains_key(key@),
    {
        self.position(key).is_some()
    }

    pub fn get(&self, key: &str) -> (r: Option<&V>)
        requires
            self.wf(),
        ensures
            match r {
                Some(v) => self@.contains_key(key@) && self@[key@] == *v,
                None => !self@.contains_key(key@),
            },
    {
        match self.position(key) {
            Some(i) => Some(&self.entries[i].1),
            None => None,
        }
    }

    /// Set the value of a key, adding it where it is new.
    pub fn insert(&mut self, key: &str, value: V)
        requires
            old(self).wf(),
        ensures
            final(self).wf(),
            final(self)@ == old(self)@.insert(key@, value),
            final(self).listed().len() == old(self).listed().len() + if old(self)@.contains_key(
                key@,
            ) {
                0int
            } else {
                1
            },
    {
        let name: String = key.to_owned();
        match self.position(key) {
            Some(i) => {
                proof {
                    lemma_update(self.entries@, i as int, (name, value));
                }
                self.entries.set(i, (name, value));
            },
            None => {
                proof {
                    lemma_push(self.entries@, (name, value));
                }
                self.entries.push((name, value));
            },
        }
    }

    pub fn remove(&mut self, key: &str)
        requires
            old(self).wf(),
        ensures
            final(self).wf(),
            final(self)@ == old(self)@.remove(key@),
            final(self).listed().len() == old(self).listed().len() - if old(self)@.contains_key(
                key@,
            ) {
                1int
            } else {
                0
            },
    {
        match self.position(key) {
            Some(i) => {
                proof {
                    lemma_remove(self.entries@, i as int);
                }
                self.entries.remove(i);
            },
            None => {
                assert(self@.remove(key@) =~= self@);
            },
        }
    }

    /// The entry at an index.
    pub fn entry(&self, i: usize) -> (r: &(String, V))
        requires
            i < self.listed().len(),
        ensures
            *r == self.listed()[i as int],
    {
        &self.entries[i]
    }

    /// The entries themselves.
    pub fn into_entries(self) -> (r: Vec<(String, V)>)
        requires
            self.wf(),
        ensures
            r@ == self.listed(),
            distinct(r@),
            map_of(r@) == self@,
    {
        self.entries
    }
}

} // verus!
