//! Sequences kept in order of a 64-bit key.

use vstd::prelude::*;

verus! {

/// An item with a 64-bit key to order it by.
pub trait Keyed: Sized {
    /// The key.
    spec fn key(&self) -> u64;

    /// The key.
    fn get_key(&self) -> (r: u64)
        ensures
            r == self.key(),
    ;
}

/// Whether the keys never decrease.
pub open spec fn sorted<T: Keyed>(s: Seq<T>) -> bool {
    forall|i: int, j: int| 0 <= i <= j < s.len() ==> (#[trigger] s[i]).key() <= (#[trigger] s[j]).key()
}

/// How many items of an ordered sequence have a key of at most `k`.
pub open spec fn rank<T: Keyed>(s: Seq<T>, k: u64) -> nat
    decreases s.len(),
{
    if s.len() == 0 {
        0
    } else if s.last().key() <= k {
        s.len()
    } else {
        rank(s.drop_last(), k)
    }
}

/// The item with the greatest key of at most `k`; of several, the last.
pub open spec fn last_at_most<T: Keyed>(s: Seq<T>, k: u64) -> Option<T> {
    if rank(s, k) == 0 {
        None
    } else {
        Some(s[rank(s, k) - 1])
    }
}

/// An ordered sequence with one more item, behind those of the same key.
pub open spec fn inserted<T: Keyed>(s: Seq<T>, x: T) -> Seq<T> {
    s.insert(rank(s, x.key()) as int, x)
}

/// The items in order of their keys; those of the same key stay in order.
pub open spec fn stable_sort<T: Keyed>(s: Seq<T>) -> Seq<T>
    decreases s.len(),
{
    if s.len() == 0 {
        s
    } else {
        inserted(stable_sort(s.drop_last()), s.last())
    }
}

/// What the rank separates.
pub proof fn lemma_rank<T: Keyed>(s: Seq<T>, k: u64)
    requires
        sorted(s),
    ensures
        rank(s, k) <= s.len(),
        forall|i: int| 0 <= i < rank(s, k) ==> (#[trigger] s[i]).key() <= k,
        forall|i: int| rank(s, k) <= i < s.len() ==> (#[trigger] s[i]).key() > k,
    decreases s.len(),
{
    if s.len() > 0 && s.last().key() > k {
        let t = s.drop_last();
        assert(sorted(t)) by {
            assert forall|i: int, j: int| 0 <= i <= j < t.len() implies (#[trigger] t[i]).key() <= (
            #[trigger] t[j]).key() by {
                assert(s[i].key() <= s[j].key());
            }
        }
        lemma_rank(t, k);
        assert forall|i: int| 0 <= i < rank(s, k) implies (#[trigger] s[i]).key() <= k by {
            assert(t[i] == s[i]);
        }
        assert forall|i: int| rank(s, k) <= i < s.len() implies (#[trigger] s[i]).key() > k by {
            if i < t.len() {
                assert(t[i] == s[i]);
            }
        }
    }
}

/// Only the rank separates so.
pub proof fn lemma_rank_unique<T: Keyed>(s: Seq<T>, k: u64, r: int)
    requires
        0 <= r <= s.len(),
        forall|i: int| 0 <= i < r ==> (#[trigger] s[i]).key() <= k,
        forall|i: int| r <= i < s.len() ==> (#[trigger] s[i]).key() > k,
    ensures
        rank(s, k) == r,
    decreases s.len(),
{
    if s.len() > 0 && s.last().key() > k {
        assert forall|i: int| 0 <= i < r implies (#[trigger] s.drop_last()[i]).key() <= k by {
            assert(s.drop_last()[i] == s[i]);
        }
        assert forall|i: int| r <= i < s.drop_last().len() implies (
        #[trigger] s.drop_last()[i]).key() > k by {
            assert(s.drop_last()[i] == s[i]);
        }
        lemma_rank_unique(s.drop_last(), k, r);
    } else if s.len() > 0 {
        assert(s[s.len() - 1].key() <= k);
    }
}

/// Insertion keeps the order.
pub proof fn lemma_inserted_sorted<T: Keyed>(s: Seq<T>, x: T)
    requires
        sorted(s),
    ensures
        sorted(inserted(s, x)),
        inserted(s, x).len() == s.len() + 1,
{
    lemma_rank(s, x.key());
    let p = rank(s, x.key()) as int;
    let t = inserted(s, x);
    assert forall|i: int, j: int| 0 <= i <= j < t.len() implies (#[trigger] t[i]).key() <= (
    #[trigger] t[j]).key() by {
        let si = if i < p {
            i
        } else {
            i - 1
        };
        let sj = if j < p {
            j
        } else {
            j - 1
        };
        if i != p {
            assert(t[i] == s[si]);
        }
        if j != p {
            assert(t[j] == s[sj]);
        }
    }
}

/// Sorting gives an ordered sequence of the same items.
pub proof fn lemma_stable_sort<T: Keyed>(s: Seq<T>)
    ensures
        sorted(stable_sort(s)),
        stable_sort(s).len() == s.len(),
        forall|x: T| #[trigger] stable_sort(s).contains(x) <==> s.contains(x),
    decreases s.len(),
{
    if s.len() > 0 {
        let t = stable_sort(s.drop_last());
        let x = s.last();
        lemma_stable_sort(s.drop_last());
        lemma_inserted_sorted(t, x);
        lemma_rank(t, x.key());
        let p = rank(t, x.key()) as int;
        let u = stable_sort(s);
        assert forall|y: T| #[trigger] u.contains(y) <==> s.contains(y) by {
            if u.contains(y) {
                let i = choose|i: int| 0 <= i < u.len() && u[i] == y;
                if i == p {
                    assert(s[s.len() - 1] == y);
                } else {
                    let ti = if i < p {
                        i
                    } else {
                        i - 1
                    };
                    assert(t[ti] == y);
                    assert(t.contains(y));
                    let k = choose|k: int| 0 <= k < s.drop_last().len() && s.drop_last()[k] == y;
                    assert(s[k] == y);
                }
            }
            if s.contains(y) {
                let k = choose|k: int| 0 <= k < s.len() && s[k] == y;
                if k == s.len() - 1 {
                    assert(u[p] == y);
                } else {
                    assert(s.drop_last()[k] == y);
                    assert(s.drop_last().contains(y));
                    assert(t.contains(y));
                    let i = choose|i: int| 0 <= i < t.len() && t[i] == y;
                    if i < p {
                        assert(u[i] == y);
                    } else {
                        assert(u[i + 1] == y);
                    }
                }
            }
        }
    }
}

/// Sorting one more item is inserting it.
pub proof fn lemma_stable_sort_push<T: Keyed>(s: Seq<T>, x: T)
    ensures
        stable_sort(s.push(x)) == inserted(stable_sort(s), x),
{
    assert(s.push(x).drop_last() =~= s);
}

/// The number of items with a key of at most `k`.
pub fn rank_of<T: Keyed>(v: &Vec<T>, k: u64) -> (r: usize)
    requires
        sorted(v@),
    ensures
        r == rank(v@, k),
        r <= v@.len(),
{
    let mut lo: usize = 0;
    let mut hi: usize = v.len();
    while lo < hi
        invariant
            sorted(v@),
            lo <= hi <= v@.len(),
            forall|i: int| 0 <= i < lo ==> (#[trigger] v@[i]).key() <= k,
            forall|i: int| hi <= i < v@.len() ==> (#[trigger] v@[i]).key() > k,
        decreases hi - lo,
    {
        let mid: usize = lo + (hi - lo) / 2;
        if v[mid].get_key() <= k {
            lo = mid + 1;
        } else {
            hi = mid;
        }
    }
    proof {
        lemma_rank_unique(v@, k, lo as int);
    }
    lo
}

/// Inserts an item behind those whose key is at most its own.
pub fn insert_by_key<T: Keyed>(v: &mut Vec<T>, x: T)
    requires
        sorted(old(v)@),
    ensures
        final(v)@ == inserted(old(v)@, x),
        sorted(final(v)@),
{
    let at: usize = rank_of(v, x.get_key());
    proof {
        lemma_inserted_sorted(v@, x);
    }
    v.insert(at, x);
}

} // verus!
