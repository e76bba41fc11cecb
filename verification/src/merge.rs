//! Array primitives behind the merge engine: sorting a suffix in place,
//! rotating a sub-range without an auxiliary buffer, and collapsing
//! adjacent duplicates of a sorted array.

use vstd::prelude::*;
use vstd::multiset::Multiset;
use crate::search::{sorted, sorted_range, strictly_sorted, lower_bound};

verus! {

/// Taking one copy of a present element out of a multiset and putting it
/// back leaves the multiset unchanged.
proof fn lemma_multiset_remove_insert(m: Multiset<i64>, x: i64)
    requires
        m.contains(x),
    ensures
        m.remove(x).insert(x) == m,
{
    assert(m.remove(x).insert(x) =~= m);
}

/// Sort the suffix `[lo, len)` of `v` in place by repeated binary-searched
/// insertion; the prefix `[0, lo)` is left untouched and the suffix keeps
/// its multiset of elements.
pub fn sort_range(v: &mut Vec<i64>, lo: usize)
    requires
        lo <= old(v)@.len(),
    ensures
        final(v)@.len() == old(v)@.len(),
        final(v)@.subrange(0, lo as int) == old(v)@.subrange(0, lo as int),
        sorted_range(final(v)@, lo as int, final(v)@.len() as int),
        final(v)@.to_multiset() == old(v)@.to_multiset(),
{
    let ghost orig = v@;
    let mut i: usize = lo;
    while i < v.len()
        invariant
            lo <= i <= v@.len(),
            v@.len() == orig.len(),
            v@.subrange(0, lo as int) == orig.subrange(0, lo as int),
            sorted_range(v@, lo as int, i as int),
            v@.to_multiset() == orig.to_multiset(),
        decreases v@.len() - i,
    {
        let x = v[i];
        let pos = lower_bound(v, lo, i, x);
        let ghost pre = v@;
        let y = v.remove(i);
        v.insert(pos, y);
        proof {
            assert(v@ == pre.remove(i as int).insert(pos as int, x));
            pre.remove_ensures(i as int);
            pre.remove(i as int).insert_ensures(pos as int, x);
            assert forall|a: int, b: int| lo <= a < b < i + 1 implies v@[a] <= v@[b] by {
                assert(forall|j: int| 0 <= j < pos ==> v@[j] == pre[j]);
                assert(v@[pos as int] == x);
                assert(forall|j: int| pos < j <= i ==> v@[j] == pre[j - 1]);
            }
            assert(forall|j: int| i < j < v@.len() ==> v@[j] == pre[j]);
            assert(v@.subrange(0, lo as int) =~= pre.subrange(0, lo as int));
            broadcast use vstd::seq_lib::group_to_multiset_ensures;
            assert(pre.remove(i as int).to_multiset() == pre.to_multiset().remove(x));
            assert(v@.to_multiset() == pre.to_multiset().remove(x).insert(x));
            assert(pre.to_multiset().contains(x));
            lemma_multiset_remove_insert(pre.to_multiset(), x);
        }
        i += 1;
    }
}

/// Sequences with equal multisets hold exactly the same values.
pub(crate) proof fn lemma_multiset_eq_to_set(a: Seq<i64>, b: Seq<i64>)
    requires
        a.to_multiset() == b.to_multiset(),
    ensures
        a.to_set() == b.to_set(),
{
    broadcast use vstd::seq_lib::group_to_multiset_ensures;
    assert forall|x: i64| a.to_set().contains(x) implies b.to_set().contains(x) by {
        assert(a.contains(x));
        assert(a.to_multiset().contains(x));
    }
    assert forall|x: i64| b.to_set().contains(x) implies a.to_set().contains(x) by {
        assert(b.contains(x));
        assert(b.to_multiset().contains(x));
    }
    assert(a.to_set() =~= b.to_set());
}

/// Reverse the sub-range `[lo, hi)` of `v` in place; everything outside
/// the range is left untouched.
fn reverse_range(v: &mut Vec<i64>, lo: usize, hi: usize)
    requires
        lo <= hi <= old(v)@.len(),
    ensures
        final(v)@.len() == old(v)@.len(),
        forall|i: int| 0 <= i < lo ==> final(v)@[i] == old(v)@[i],
        forall|i: int| hi <= i < old(v)@.len() ==> final(v)@[i] == old(v)@[i],
        forall|i: int| lo <= i < hi ==> final(v)@[i] == old(v)@[lo + hi - 1 - i],
{
    let ghost orig = v@;
    let mut a: usize = lo;
    let mut b: usize = hi;
    while b - a > 1
        invariant
            lo <= a <= b <= hi <= v@.len(),
            v@.len() == orig.len(),
            a - lo == hi - b,
            forall|i: int| 0 <= i < lo ==> v@[i] == orig[i],
            forall|i: int| hi <= i < orig.len() ==> v@[i] == orig[i],
            forall|i: int| lo <= i < a ==> v@[i] == orig[lo + hi - 1 - i],
            forall|i: int| b <= i < hi ==> v@[i] == orig[lo + hi - 1 - i],
            forall|i: int| a <= i < b ==> v@[i] == orig[i],
        decreases b - a,
    {
        let x = v[a];
        let y = v[b - 1];
        v.set(a, y);
        v.set(b - 1, x);
        a = a + 1;
        b = b - 1;
    }
}

/// Rotate the sub-range `[lo, hi)` of `v` right by `k` positions, in place
/// and with no auxiliary buffer (three reversals): the last `k` elements of
/// the range move to its front, the rest shift right by `k`.
pub fn rotate_right_range(v: &mut Vec<i64>, lo: usize, hi: usize, k: usize)
    requires
        lo <= hi <= old(v)@.len(),
        k <= hi - lo,
    ensures
        final(v)@.len() == old(v)@.len(),
        forall|i: int| 0 <= i < lo ==> final(v)@[i] == old(v)@[i],
        forall|i: int| hi <= i < old(v)@.len() ==> final(v)@[i] == old(v)@[i],
        forall|i: int| lo <= i < lo + k ==> final(v)@[i] == old(v)@[i + (hi - lo - k)],
        forall|i: int| lo + k <= i < hi ==> final(v)@[i] == old(v)@[i - k],
        final(v)@.subrange(lo as int, hi as int) == old(v)@.subrange(hi - k, hi as int)
            + old(v)@.subrange(lo as int, hi - k),
{
    let ghost s0 = v@;
    reverse_range(v, lo, hi - k);
    let ghost s1 = v@;
    reverse_range(v, hi - k, hi);
    let ghost s2 = v@;
    reverse_range(v, lo, hi);
    proof {
        assert forall|i: int| lo <= i < lo + k implies v@[i] == s0[i + (hi - lo - k)] by {
            assert(v@[i] == s2[lo + hi - 1 - i]);
            assert(s2[lo + hi - 1 - i] == s1[(hi - k) + hi - 1 - (lo + hi - 1 - i)]);
            assert(s1[i + (hi - lo - k)] == s0[i + (hi - lo - k)]);
        }
        assert forall|i: int| lo + k <= i < hi implies v@[i] == s0[i - k] by {
            assert(v@[i] == s2[lo + hi - 1 - i]);
            assert(s2[lo + hi - 1 - i] == s1[lo + hi - 1 - i]);
            assert(s1[lo + hi - 1 - i] == s0[lo + (hi - k) - 1 - (lo + hi - 1 - i)]);
        }
        assert(v@.subrange(lo as int, hi as int) =~= s0.subrange(hi - k, hi as int)
            + s0.subrange(lo as int, hi - k));
    }
}

/// Remove the later of every pair of adjacent equal elements of a sorted
/// array, leaving a strictly increasing array over the same set of values.
pub fn dedup_sorted(v: &mut Vec<i64>)
    requires
        sorted(old(v)@),
    ensures
        strictly_sorted(final(v)@),
        final(v)@.to_set() == old(v)@.to_set(),
{
    let ghost orig = v@;
    let mut i: usize = 1;
    while i < v.len()
        invariant
            1 <= i,
            i <= v@.len() || v@.len() == 0,
            sorted_range(v@, 0, v@.len() as int),
            strictly_sorted(v@.subrange(0, if i <= v@.len() { i as int } else { 0 })),
            v@.to_set() == orig.to_set(),
        decreases v@.len() - i,
    {
        if v[i] == v[i - 1] {
            let ghost pre = v@;
            v.remove(i);
            proof {
                pre.remove_ensures(i as int);
                assert forall|x: i64| pre.to_set().contains(x) implies v@.to_set().contains(x) by {
                    let j = choose|j: int| 0 <= j < pre.len() && pre[j] == x;
                    if j < i {
                        assert(v@[j] == x);
                    } else if j == i {
                        assert(v@[i - 1] == x);
                    } else {
                        assert(v@[j - 1] == x);
                    }
                }
                assert forall|x: i64| v@.to_set().contains(x) implies pre.to_set().contains(x) by {
                    let j = choose|j: int| 0 <= j < v@.len() && v@[j] == x;
                    if j < i {
                        assert(pre[j] == x);
                    } else {
                        assert(pre[j + 1] == x);
                    }
                }
                assert(v@.to_set() =~= pre.to_set());
                assert(v@.subrange(0, i as int) =~= pre.subrange(0, i as int));
            }
        } else {
            proof {
                assert(v@.subrange(0, i + 1).drop_last() =~= v@.subrange(0, i as int));
            }
            i = i + 1;
        }
    }
    proof {
        if v@.len() > 0 {
            assert(v@.subrange(0, v@.len() as int) =~= v@);
        }
    }
}

} // verus!
