//! Ordering predicates on integer sequences and the binary-search primitive
//! that every container operation builds on.

use vstd::prelude::*;

verus! {

/// The sub-range `[lo, hi)` of `s` is sorted in non-decreasing order.
pub open spec fn sorted_range(s: Seq<i64>, lo: int, hi: int) -> bool {
    forall|i: int, j: int| lo <= i < j < hi ==> s[i] <= s[j]
}

/// The whole sequence is sorted in non-decreasing order.
pub open spec fn sorted(s: Seq<i64>) -> bool {
    sorted_range(s, 0, s.len() as int)
}

/// The sub-range `[lo, hi)` of `s` is strictly increasing.
pub open spec fn strictly_sorted_range(s: Seq<i64>, lo: int, hi: int) -> bool {
    forall|i: int, j: int| lo <= i < j < hi ==> s[i] < s[j]
}

/// The whole sequence is strictly increasing: sorted and free of duplicates.
pub open spec fn strictly_sorted(s: Seq<i64>) -> bool {
    strictly_sorted_range(s, 0, s.len() as int)
}

/// A shared reference to element `i` of `v`.
pub(crate) fn vec_element<T>(v: &Vec<T>, i: usize) -> (r: &T)
    requires
        i < v@.len(),
    ensures
        *r == v@[i as int],
{
    &v[i]
}

/// Splicing a fresh value between the elements below it and the elements
/// above it keeps a strictly increasing sequence strictly increasing and
/// adds exactly that value to its value set.
pub(crate) proof fn lemma_strictly_sorted_insert(s: Seq<i64>, idx: int, x: i64)
    requires
        strictly_sorted(s),
        0 <= idx <= s.len(),
        forall|j: int| 0 <= j < idx ==> s[j] < x,
        forall|j: int| idx <= j < s.len() ==> s[j] > x,
    ensures
        strictly_sorted(s.insert(idx, x)),
        s.insert(idx, x).to_set() == s.to_set().insert(x),
{
    let s2 = s.insert(idx, x);
    s.insert_ensures(idx, x);
    assert forall|a: int, b: int| 0 <= a < b < s2.len() implies s2[a] < s2[b] by {
        assert(forall|j: int| 0 <= j < idx ==> s2[j] == s[j]);
        assert(s2[idx] == x);
        assert(forall|j: int| idx < j < s2.len() ==> s2[j] == s[j - 1]);
    }
    assert forall|y: i64| s2.to_set().contains(y)
        implies s.to_set().insert(x).contains(y) by {
        let j = choose|j: int| 0 <= j < s2.len() && s2[j] == y;
        if j < idx {
            assert(s[j] == y);
        } else if j > idx {
            assert(s[j - 1] == y);
        }
    }
    assert forall|y: i64| s.to_set().insert(x).contains(y)
        implies s2.to_set().contains(y) by {
        if y == x {
            assert(s2[idx] == y);
        } else {
            let j = choose|j: int| 0 <= j < s.len() && s[j] == y;
            if j < idx {
                assert(s2[j] == y);
            } else {
                assert(s2[j + 1] == y);
            }
        }
    }
    assert(s2.to_set() =~= s.to_set().insert(x));
}

/// Dropping the one element equal to `s[idx]` from a strictly increasing
/// sequence keeps it strictly increasing and removes exactly that value
/// from its value set.
pub(crate) proof fn lemma_strictly_sorted_remove(s: Seq<i64>, idx: int)
    requires
        strictly_sorted(s),
        0 <= idx < s.len(),
    ensures
        strictly_sorted(s.remove(idx)),
        s.remove(idx).to_set() == s.to_set().remove(s[idx]),
        !s.remove(idx).contains(s[idx]),
{
    let s2 = s.remove(idx);
    s.remove_ensures(idx);
    assert forall|a: int, b: int| 0 <= a < b < s2.len() implies s2[a] < s2[b] by {
        assert(forall|j: int| 0 <= j < idx ==> s2[j] == s[j]);
        assert(forall|j: int| idx <= j < s2.len() ==> s2[j] == s[j + 1]);
    }
    assert forall|y: i64| s2.to_set().contains(y)
        implies s.to_set().remove(s[idx]).contains(y) by {
        let j = choose|j: int| 0 <= j < s2.len() && s2[j] == y;
        if j < idx {
            assert(s[j] == y);
            assert(y != s[idx] || j == idx);
        } else {
            assert(s[j + 1] == y);
            assert(y != s[idx] || j + 1 == idx);
        }
    }
    assert forall|y: i64| s.to_set().remove(s[idx]).contains(y)
        implies s2.to_set().contains(y) by {
        let j = choose|j: int| 0 <= j < s.len() && s[j] == y;
        assert(j != idx);
        if j < idx {
            assert(s2[j] == y);
        } else {
            assert(s2[j - 1] == y);
        }
    }
    assert(s2.to_set() =~= s.to_set().remove(s[idx]));
    if s2.contains(s[idx]) {
        let j = choose|j: int| 0 <= j < s2.len() && s2[j] == s[idx];
        if j < idx {
            assert(s[j] == s[idx]);
        } else {
            assert(s[j + 1] == s[idx]);
        }
    }
}

/// Position of the first element of `v[lo..hi]` that is not below `key`
/// (the insertion point that keeps a sorted range sorted).
///
/// The returned index splits the searched range in two: everything to its
/// left is strictly below `key`, everything from it on is at least `key`.
pub fn lower_bound(v: &Vec<i64>, lo: usize, hi: usize, key: i64) -> (r: usize)
    requires
        lo <= hi <= v@.len(),
        sorted_range(v@, lo as int, hi as int),
    ensures
        lo <= r <= hi,
        forall|i: int| lo <= i < r ==> v@[i] < key,
        forall|i: int| r <= i < hi ==> v@[i] >= key,
{
    let mut low: usize = lo;
    let mut high: usize = hi;
    while low < high
        invariant
            lo <= low <= high <= hi <= v@.len(),
            sorted_range(v@, lo as int, hi as int),
            forall|i: int| lo <= i < low ==> v@[i] < key,
            forall|i: int| high <= i < hi ==> v@[i] >= key,
        decreases high - low,
    {
        let mid: usize = low + (high - low) / 2;
        if v[mid] < key {
            low = mid + 1;
        } else {
            high = mid;
        }
    }
    low
}

} // verus!
