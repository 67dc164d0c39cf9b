//! Orders and sorting.

use vstd::multiset::Multiset;
use vstd::prelude::*;

verus! {

/// `a` comes before `b` byte by byte; a proper prefix comes first.
pub open spec fn lex_less(a: Seq<u8>, b: Seq<u8>) -> bool
    decreases a.len(),
{
    if b.len() == 0 {
        false
    } else if a.len() == 0 {
        true
    } else if a[0] != b[0] {
        a[0] < b[0]
    } else {
        lex_less(a.skip(1), b.skip(1))
    }
}

/// Of two different byte strings exactly one comes first.
pub proof fn lemma_lex_total(a: Seq<u8>, b: Seq<u8>)
    ensures
        lex_less(a, b) || lex_less(b, a) || a == b,
        !(lex_less(a, b) && lex_less(b, a)),
        a == b ==> !lex_less(a, b),
    decreases a.len(),
{
    if a.len() > 0 && b.len() > 0 {
        lemma_lex_total(a.skip(1), b.skip(1));
        if a[0] == b[0] && a.skip(1) == b.skip(1) {
            assert(a =~= seq![a[0]] + a.skip(1));
            assert(b =~= seq![b[0]] + b.skip(1));
        }
    } else if a.len() == 0 && b.len() == 0 {
        assert(a =~= b);
    }
}

pub proof fn lemma_lex_transitive(a: Seq<u8>, b: Seq<u8>, c: Seq<u8>)
    requires
        lex_less(a, b),
        lex_less(b, c),
    ensures
        lex_less(a, c),
    decreases a.len(),
{
    if a.len() > 0 && a[0] == b[0] && b[0] == c[0] {
        lemma_lex_transitive(a.skip(1), b.skip(1), c.skip(1));
    }
}

/// Byte order of two strings.
pub fn lex_before(a: &[u8], b: &[u8]) -> (r: bool)
    ensures
        r == lex_less(a@, b@),
{
    let mut i: usize = 0;
    assert(a@.skip(0) =~= a@);
    assert(b@.skip(0) =~= b@);
    while i < a.len() && i < b.len()
        invariant
            i <= a@.len(),
            i <= b@.len(),
            lex_less(a@, b@) == lex_less(a@.skip(i as int), b@.skip(i as int)),
        decreases a@.len() - i,
    {
        assert(a@.skip(i as int).skip(1) =~= a@.skip(i + 1));
        assert(b@.skip(i as int).skip(1) =~= b@.skip(i + 1));
        if a[i] != b[i] {
            return a[i] < b[i];
        }
        i = i + 1;
    }
    i < b.len()
}

/// A total preorder by which values can be sorted.
pub trait Ranked: Sized {
    /// `self` may stand before `other`.
    spec fn may_precede(self, other: Self) -> bool;

    proof fn total(a: Self, b: Self)
        ensures
            a.may_precede(b) || b.may_precede(a),
    ;

    proof fn transitive(a: Self, b: Self, c: Self)
        requires
            a.may_precede(b),
            b.may_precede(c),
        ensures
            a.may_precede(c),
    ;

    fn at_most(&self, other: &Self) -> (r: bool)
        ensures
            r == self.may_precede(*other),
    ;
}

/// Every element may stand before every later one.
pub open spec fn sorted<T: Ranked>(s: Seq<T>) -> bool {
    forall|i: int, j: int|
        0 <= i < j < s.len() ==> (#[trigger] s[i]).may_precede(#[trigger] s[j])
}

/// Sort by insertion.
pub fn sort<T: Ranked>(items: Vec<T>) -> (r: Vec<T>)
    ensures
        sorted(r@),
        r@.to_multiset() == items@.to_multiset(),
        r@.len() == items@.len(),
{
    broadcast use vstd::seq_lib::group_to_multiset_ensures;

    let mut items: Vec<T> = items;
    let ghost all = items@;
    let mut out: Vec<T> = Vec::new();
    assert(out@.to_multiset() =~= Multiset::empty());
    while items.len() > 0
        invariant
            sorted(out@),
            out@.to_multiset().add(items@.to_multiset()) =~= all.to_multiset(),
            out@.len() + items@.len() == all.len(),
        decreases items@.len(),
    {
        let ghost rest = items@;
        let x: T = match items.pop() {
            Some(x) => x,
            None => {
                return out;
            },
        };
        assert(rest =~= items@.push(x));
        let ghost before = out@;
        let mut p: usize = 0;
        while p < out.len() && !x.at_most(&out[p])
            invariant
                p <= out@.len(),
                out@ == before,
                forall|k: int| 0 <= k < p ==> !x.may_precede(#[trigger] out@[k]),
            decreases out@.len() - p,
        {
            p = p + 1;
        }
        proof {
            assert forall|i: int, j: int|
                0 <= i < j < before.insert(p as int, x).len() implies (#[trigger] before.insert(
                p as int,
                x,
            )[i]).may_precede(#[trigger] before.insert(p as int, x)[j]) by {
                let s = before.insert(p as int, x);
                if j == p {
                    T::total(x, before[i]);
                } else if i == p {
                    if p < j - 1 {
                        T::transitive(x, before[p as int], before[j - 1]);
                    }
                } else {
                    assert(s[i] == if i < p {
                        before[i]
                    } else {
                        before[i - 1]
                    });
                }
            }
            vstd::seq_lib::to_multiset_insert(before, p as int, x);
            vstd::seq_lib::to_multiset_build(items@, x);
            assert(before.insert(p as int, x).to_multiset().add(items@.to_multiset())
                =~= before.to_multiset().add(rest.to_multiset()));
        }
        out.insert(p, x);
    }
    assert(items@.to_multiset() =~= Multiset::empty());
    out
}

/// Byte strings that first differ at one place are ordered by what stands
/// there.
pub proof fn lemma_lex_at(a: Seq<u8>, b: Seq<u8>, k: int)
    requires
        0 <= k < a.len(),
        k < b.len(),
        forall|i: int| 0 <= i < k ==> #[trigger] a[i] == b[i],
        a[k] < b[k],
    ensures
        lex_less(a, b),
    decreases k,
{
    if k > 0 {
        assert(a[0] == b[0]);
        assert forall|i: int| 0 <= i < k - 1 implies #[trigger] a.skip(1)[i] == b.skip(1)[i] by {
            assert(a[i + 1] == b[i + 1]);
        }
        lemma_lex_at(a.skip(1), b.skip(1), k - 1);
    }
}

/// One byte string comes before another exactly when, at the first place where
/// they differ, it has ended or has the lower byte.
pub proof fn law_first_difference_decides(a: Seq<u8>, b: Seq<u8>, k: int)
    requires
        0 <= k <= a.len(),
        k <= b.len(),
        a.take(k) == b.take(k),
        k < a.len() && k < b.len() ==> a[k] != b[k],
    ensures
        lex_less(a, b) == (k < b.len() && (k == a.len() || a[k] < b[k])),
    decreases k,
{
    if k > 0 {
        assert(a[0] == a.take(k)[0] && b[0] == b.take(k)[0]);
        assert forall|i: int| 0 <= i < k - 1 implies #[trigger] a.skip(1).take(k - 1)[i] == b.skip(
            1,
        ).take(k - 1)[i] by {
            assert(a.take(k)[i + 1] == a[i + 1]);
            assert(b.take(k)[i + 1] == b[i + 1]);
        }
        assert(a.skip(1).take(k - 1) =~= b.skip(1).take(k - 1));
        law_first_difference_decides(a.skip(1), b.skip(1), k - 1);
    }
}

} // verus!
