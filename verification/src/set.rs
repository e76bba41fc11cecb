//! An ordered collection of unique `i64` elements kept in one contiguous
//! strictly increasing array. Lookups binary-search the array; bulk loads
//! go through one of three merge strategies.

use vstd::prelude::*;
use crate::search::{
    lemma_strictly_sorted_insert, lemma_strictly_sorted_remove, lower_bound, sorted_range,
    strictly_sorted, strictly_sorted_range, vec_element,
};
use crate::merge::{sort_range, dedup_sorted, rotate_right_range, lemma_multiset_eq_to_set};

verus! {

/// A set of `i64` values stored as a strictly increasing vector.
#[derive(Debug, Clone, PartialEq, Eq, PartialOrd, Ord, Default)]
pub struct BinarySet(Vec<i64>);

impl View for BinarySet {
    type V = Seq<i64>;

    closed spec fn view(&self) -> Seq<i64> {
        self.0@
    }
}

/// Relies on `Vec::capacity`: the number of elements a vector can hold
/// without reallocating, never below its length.
#[verifier::external_body]
pub(crate) fn vec_capacity(v: &Vec<i64>) -> (r: usize)
    ensures
        r >= v@.len(),
{
    v.capacity()
}

impl BinarySet {
    /// The stored sequence is strictly increasing: sorted with no duplicates.
    pub open spec fn wf(self) -> bool {
        strictly_sorted(self@)
    }

    /// An empty set.
    pub fn new() -> (r: BinarySet)
        ensures
            r.wf(),
            r@ == Seq::<i64>::empty(),
    {
        BinarySet(Vec::new())
    }

    /// An empty set whose backing storage is pre-reserved for `capacity`
    /// elements; the contents are unaffected by the reservation.
    pub fn with_capacity(capacity: usize) -> (r: BinarySet)
        ensures
            r.wf(),
            r@ == Seq::<i64>::empty(),
    {
        BinarySet(Vec::with_capacity(capacity))
    }

    /// Build a set from an arbitrary sequence: sort once, then drop
    /// adjacent duplicates, so every distinct input value is kept exactly
    /// once.
    pub fn from_sequence(items: Vec<i64>) -> (r: BinarySet)
        ensures
            r.wf(),
            r@.to_set() == items@.to_set(),
    {
        let ghost orig = items@;
        let mut v = items;
        sort_range(&mut v, 0);
        proof {
            lemma_multiset_eq_to_set(v@, orig);
        }
        dedup_sorted(&mut v);
        BinarySet(v)
    }

    /// The number of stored elements.
    pub fn len(&self) -> (r: usize)
        ensures
            r == self@.len(),
    {
        self.0.len()
    }

    /// How many elements the backing storage can hold without reallocating.
    pub fn capacity(&self) -> (r: usize)
        ensures
            r >= self@.len(),
    {
        vec_capacity(&self.0)
    }

    /// Reserve room for at least `additional` more elements; the contents
    /// are unchanged.
    pub fn reserve(&mut self, additional: usize)
        ensures
            final(self)@ == old(self)@,
    {
        self.0.reserve(additional);
    }

    /// The stored elements, in ascending order.
    pub fn as_ref(&self) -> (r: &Vec<i64>)
        ensures
            r@ == self@,
    {
        &self.0
    }

    /// Give up the set and hand back its sorted backing vector.
    pub fn into_vec(self) -> (r: Vec<i64>)
        ensures
            r@ == self@,
    {
        self.0
    }

    /// Binary-search for `key`: a reference to the stored element equal to
    /// it, or `None` when no such element is stored.
    pub fn get(&self, key: i64) -> (r: Option<&i64>)
        requires
            self.wf(),
        ensures
            match r {
                Some(x) => self@.contains(key) && *x == key,
                None => !self@.contains(key),
            },
    {
        let idx = lower_bound(&self.0, 0, self.0.len(), key);
        if idx < self.0.len() && *vec_element(&self.0, idx) == key {
            proof {
                assert(self@[idx as int] == key);
            }
            Some(vec_element(&self.0, idx))
        } else {
            proof {
                assert forall|j: int| 0 <= j < self@.len() implies self@[j] != key by {
                    if j >= idx {
                        assert(self@[j] >= key);
                    }
                }
            }
            None
        }
    }

    /// Insert `element` at its sorted position, shifting the tail right.
    /// Reports `true` when the element was newly inserted and `false` when
    /// an equal element was already stored, in which case nothing changes.
    pub fn insert(&mut self, element: i64) -> (r: bool)
        requires
            old(self).wf(),
        ensures
            final(self).wf(),
            r == !old(self)@.contains(element),
            final(self)@.contains(element),
            final(self)@.to_set() == old(self)@.to_set().insert(element),
            !r ==> final(self)@ == old(self)@,
    {
        let idx = lower_bound(&self.0, 0, self.0.len(), element);
        if idx < self.0.len() && self.0[idx] == element {
            proof {
                assert(self@[idx as int] == element);
                assert(self@.to_set().contains(element));
                assert(self@.to_set() =~= self@.to_set().insert(element));
            }
            false
        } else {
            let ghost pre = self.0@;
            self.0.insert(idx, element);
            proof {
                assert forall|j: int| idx <= j < pre.len() implies pre[j] > element by {
                    if j > idx && pre[j] == element {
                        assert(pre[idx as int] < pre[j]);
                        assert(pre[idx as int] >= element);
                    }
                }
                assert(forall|j: int| 0 <= j < pre.len() ==> pre[j] != element);
                lemma_strictly_sorted_insert(pre, idx as int, element);
                pre.insert_ensures(idx as int, element);
                assert(self@[idx as int] == element);
                assert(self@.contains(element));
            }
            true
        }
    }

    /// Binary-search for `key`; when found, remove it (the tail shifts
    /// left) and return it, otherwise report absence and change nothing.
    pub fn remove(&mut self, key: i64) -> (r: Option<i64>)
        requires
            old(self).wf(),
        ensures
            final(self).wf(),
            !final(self)@.contains(key),
            final(self)@.to_set() == old(self)@.to_set().remove(key),
            r == if old(self)@.contains(key) { Some(key) } else { None::<i64> },
            !old(self)@.contains(key) ==> final(self)@ == old(self)@,
    {
        let idx = lower_bound(&self.0, 0, self.0.len(), key);
        if idx < self.0.len() && self.0[idx] == key {
            let ghost pre = self.0@;
            let x = self.0.remove(idx);
            proof {
                assert(pre[idx as int] == key);
                assert(pre.contains(key));
                lemma_strictly_sorted_remove(pre, idx as int);
            }
            Some(x)
        } else {
            proof {
                assert forall|j: int| 0 <= j < self@.len() implies self@[j] != key by {
                    if j >= idx {
                        assert(self@[j] >= key);
                    }
                }
                assert(self@.to_set() =~= self@.to_set().remove(key));
            }
            None
        }
    }

    /// Empty the set; the backing capacity may be retained.
    pub fn clear(&mut self)
        ensures
            final(self).wf(),
            final(self)@ == Seq::<i64>::empty(),
    {
        self.0.clear();
    }

    /// Bulk insert, resort strategy: append the whole batch to the tail,
    /// sort the combined array, then drop adjacent duplicates.
    pub fn extend(&mut self, items: Vec<i64>)
        requires
            old(self).wf(),
        ensures
            final(self).wf(),
            final(self)@.to_set() == old(self)@.to_set().union(items@.to_set()),
    {
        let ghost pre = self.0@;
        let ghost batch = items@;
        let mut items = items;
        self.0.append(&mut items);
        proof {
            lemma_concat_to_set(pre, batch);
        }
        let ghost combined = self.0@;
        sort_range(&mut self.0, 0);
        proof {
            lemma_multiset_eq_to_set(self.0@, combined);
        }
        dedup_sorted(&mut self.0);
    }

    /// Bulk insert, in-place rotation merge: append the batch, sort only
    /// the appended suffix, then place the new items from largest to
    /// smallest, each time rotating the sub-range between an item's final
    /// position and the still-unplaced block so that no auxiliary buffer is
    /// needed. A final dedup pass runs only when a duplicate was detected,
    /// either inside the sorted batch or against the existing prefix.
    #[verifier::rlimit(50)]
    pub fn extend_with_rotates(&mut self, items: Vec<i64>)
        requires
            old(self).wf(),
        ensures
            final(self).wf(),
            final(self)@.to_set() == old(self)@.to_set().union(items@.to_set()),
    {
        let n0 = self.0.len();
        let ghost p = self.0@;
        let ghost batch = items@;
        let mut items = items;
        self.0.append(&mut items);
        let total = self.0.len();
        if total == n0 {
            proof {
                assert(batch.to_set() =~= Set::<i64>::empty());
                assert(self.0@ =~= p);
                assert(self.0@.to_set() =~= p.to_set().union(batch.to_set()));
            }
            return;
        }
        let m = total - n0;
        let ghost combined = self.0@;
        sort_range(&mut self.0, n0);
        let ghost s = self.0@.subrange(n0 as int, total as int);
        proof {
            assert forall|jj: int| 0 <= jj < n0 implies self.0@[jj] == p[jj] by {
                assert(self.0@.subrange(0, n0 as int)[jj] == combined.subrange(0, n0 as int)[jj]);
            }
            assert forall|ii: int| 0 <= ii < m implies self.0@[n0 + ii] == s[ii] by {
                assert(s[ii] == self.0@[n0 + ii]);
            }
            assert forall|a: int, b: int| 0 <= a < b < m implies s[a] <= s[b] by {
                assert(self.0@[n0 + a] <= self.0@[n0 + b]);
            }
            // the suffix holds exactly the batch, as a multiset
            broadcast use vstd::seq_lib::lemma_multiset_commutative;
            assert(self.0@ =~= self.0@.subrange(0, n0 as int) + s);
            assert(combined =~= p + batch);
            assert(self.0@.subrange(0, n0 as int) =~= p);
            assert((p + s).to_multiset() == p.to_multiset().add(s.to_multiset()));
            assert((p + batch).to_multiset() == p.to_multiset().add(batch.to_multiset()));
            broadcast use vstd::multiset::group_multiset_axioms;
            assert(self.0@.to_multiset() == combined.to_multiset());
            assert(p.to_multiset().add(s.to_multiset())
                == p.to_multiset().add(batch.to_multiset()));
            assert forall|x: i64|
                s.to_multiset().count(x) == batch.to_multiset().count(x) by {
                assert(p.to_multiset().add(s.to_multiset()).count(x)
                    == p.to_multiset().count(x) + s.to_multiset().count(x));
                assert(p.to_multiset().add(batch.to_multiset()).count(x)
                    == p.to_multiset().count(x) + batch.to_multiset().count(x));
            }
            assert(s.to_multiset() =~= batch.to_multiset());
        }
        // scan the sorted suffix for adjacent equal items
        let mut duplicates = false;
        let ghost v1 = self.0@;
        let mut j: usize = n0 + 1;
        while j < total
            invariant
                n0 + 1 <= j <= total,
                total == n0 + m,
                m >= 1,
                m == s.len(),
                self.0@ == v1,
                v1.len() == total,
                forall|ii: int| 0 <= ii < m ==> v1[n0 + ii] == s[ii],
                !duplicates ==> forall|a: int| n0 < a < j ==> v1[a - 1] != #[trigger] v1[a],
            decreases total - j,
        {
            if self.0[j - 1] == self.0[j] {
                duplicates = true;
            }
            j += 1;
        }
        proof {
            if !duplicates {
                assert forall|a: int, b: int| 0 <= a < b < m implies s[a] < s[b] by {
                    assert(v1[n0 + a] != v1[n0 + a + 1]);
                    assert(s[a] != s[a + 1]);
                    assert(s[a] <= s[a + 1] && s[a + 1] <= s[b]);
                }
            }
        }
        // lower bound of the smallest new item inside the old prefix
        let first = self.0[n0];
        proof {
            assert(first == s[0]);
            assert forall|a: int, b: int| 0 <= a < b < n0 implies self.0@[a] <= self.0@[b] by {
                assert(self.0@[a] == p[a] && self.0@[b] == p[b]);
            }
        }
        let first_index = lower_bound(&self.0, 0, n0, first);
        if first_index < n0 && self.0[first_index] == first {
            duplicates = true;
        }
        proof {
            assert(forall|jj: int| 0 <= jj < first_index ==> p[jj] < s[0]);
            if !duplicates {
                assert forall|jj: int| 0 <= jj < n0 implies p[jj] != s[0] by {
                    if jj >= first_index {
                        assert(self.0@[jj] >= first);
                        assert(p[jj] >= s[0]);
                        if p[jj] == s[0] {
                            assert(p[first_index as int] <= p[jj]);
                            assert(p[first_index as int] >= s[0]);
                            assert(p[first_index as int] == s[0]);
                            assert(self.0@[first_index as int] == first);
                        }
                    }
                }
            }
        }
        // place the new items, largest first, by rotations
        proof {
            broadcast use vstd::seq_lib::group_to_multiset_ensures;
            broadcast use vstd::multiset::group_multiset_axioms;
            assert(self.0@.subrange((n0 + m) as int, total as int) =~= Seq::<i64>::empty());
            assert(p.subrange(n0 as int, n0 as int) =~= Seq::<i64>::empty());
            assert(s.subrange(m as int, m as int) =~= Seq::<i64>::empty());
            assert(Seq::<i64>::empty().to_multiset()
                .add(Seq::<i64>::empty().to_multiset()) =~= Seq::<i64>::empty().to_multiset());
        }
        let mut boundary: usize = n0;
        let mut remaining: usize = m;
        while remaining > 0
            invariant
                boundary <= n0,
                remaining <= m,
                m >= 1,
                n0 == p.len(),
                m == s.len(),
                total == n0 + m,
                self.0@.len() == n0 + m,
                strictly_sorted(p),
                sorted_range(s, 0, m as int),
                first_index <= n0,
                forall|jj: int| 0 <= jj < first_index ==> p[jj] < s[0],
                forall|jj: int| 0 <= jj < boundary ==> self.0@[jj] == p[jj],
                forall|ii: int| 0 <= ii < remaining ==> self.0@[boundary + ii] == s[ii],
                self.0@.subrange(boundary + remaining, total as int).to_multiset()
                    == p.subrange(boundary as int, n0 as int).to_multiset()
                        .add(s.subrange(remaining as int, m as int).to_multiset()),
                sorted_range(self.0@, boundary + remaining, total as int),
                forall|k: int, jj: int|
                    boundary + remaining <= k < total && 0 <= jj < boundary
                        ==> self.0@[k] >= p[jj],
                forall|k: int, ii: int|
                    boundary + remaining <= k < total && 0 <= ii < remaining
                        ==> self.0@[k] >= s[ii],
                !duplicates ==> strictly_sorted(s),
                !duplicates ==> forall|ii: int, jj: int|
                    remaining <= ii < m && 0 <= jj < n0 ==> p[jj] != s[ii],
                !duplicates ==> forall|jj: int, ii: int|
                    boundary <= jj < n0 && 0 <= ii < remaining ==> p[jj] > s[ii],
                !duplicates ==> strictly_sorted_range(
                    self.0@,
                    boundary + remaining,
                    total as int,
                ),
                !duplicates ==> forall|k: int, jj: int|
                    boundary + remaining <= k < total && 0 <= jj < boundary
                        ==> self.0@[k] > p[jj],
                !duplicates ==> forall|k: int, ii: int|
                    boundary + remaining <= k < total && 0 <= ii < remaining
                        ==> self.0@[k] > s[ii],
            decreases remaining,
        {
            let ghost v0 = self.0@;
            let ghost b0 = boundary as int;
            let ghost r0 = remaining as int;
            let to_insert = self.0[boundary + remaining - 1];
            proof {
                assert(to_insert == s[r0 - 1]);
                assert(s[0] <= s[r0 - 1]);
            }
            let target: usize;
            if first_index >= boundary {
                target = boundary;
            } else {
                proof {
                    assert forall|a: int, b: int|
                        first_index <= a < b < boundary implies self.0@[a] <= self.0@[b] by {
                        assert(self.0@[a] == p[a] && self.0@[b] == p[b]);
                    }
                }
                let t = lower_bound(&self.0, first_index, boundary, to_insert);
                if t < boundary && self.0[t] == to_insert {
                    duplicates = true;
                }
                target = t;
            }
            proof {
                assert forall|jj: int| 0 <= jj < target implies p[jj] < to_insert by {
                    if jj < first_index {
                        assert(p[jj] < s[0]);
                    } else {
                        assert(self.0@[jj] < to_insert);
                    }
                }
                assert forall|jj: int| target <= jj < b0 implies p[jj] >= to_insert by {
                    assert(self.0@[jj] >= to_insert);
                }
                if !duplicates {
                    assert forall|jj: int| target <= jj < b0 implies p[jj] > to_insert by {
                        if p[jj] == to_insert {
                            assert(p[target as int] <= p[jj]);
                            assert(p[target as int] >= to_insert);
                            assert(self.0@[target as int] == to_insert);
                        }
                    }
                }
            }
            let ghost t0 = target as int;
            if boundary != target {
                rotate_right_range(&mut self.0, target, boundary + remaining, remaining);
                boundary = target;
            }
            remaining = remaining - 1;
            proof {
                let v = self.0@;
                // layout after this step, in terms of p, s and the old tail
                assert(forall|k: int| 0 <= k < t0 ==> v[k] == v0[k] && v[k] == p[k]);
                assert forall|k: int| t0 <= k < t0 + r0 implies v[k] == s[k - t0] by {
                    if t0 == b0 {
                        assert(v[k] == v0[k]);
                    } else {
                        assert(v[k] == v0[k + (b0 - t0)]);
                    }
                }
                assert forall|k: int| t0 + r0 <= k < b0 + r0 implies v[k] == p[k - r0] by {
                    assert(v[k] == v0[k - r0]);
                }
                assert(forall|k: int| b0 + r0 <= k < total ==> v[k] == v0[k]);
                // the new tail is the placed item, the slid prefix block and the old tail
                let aa = seq![s[r0 - 1]];
                let bb = p.subrange(t0, b0);
                let cc = v0.subrange(b0 + r0, total as int);
                assert(v.subrange(t0 + r0 - 1, total as int) =~= aa + bb + cc);
                broadcast use vstd::seq_lib::lemma_multiset_commutative;
                broadcast use vstd::multiset::group_multiset_axioms;
                assert((aa + bb + cc).to_multiset() == (aa + bb).to_multiset().add(cc.to_multiset()));
                assert((aa + bb).to_multiset() == aa.to_multiset().add(bb.to_multiset()));
                assert(p.subrange(t0, n0 as int) =~= bb + p.subrange(b0, n0 as int));
                assert(s.subrange(r0 - 1, m as int) =~= aa + s.subrange(r0, m as int));
                assert(v.subrange(t0 + r0 - 1, total as int).to_multiset()
                    =~= p.subrange(t0, n0 as int).to_multiset()
                        .add(s.subrange(r0 - 1, m as int).to_multiset()));
                // the new tail is sorted and dominates what is still unplaced
                assert forall|a: int, b: int|
                    t0 + r0 - 1 <= a < b < total implies v[a] <= v[b] by {
                    if a == t0 + r0 - 1 {
                        if b < b0 + r0 {
                            assert(p[b - r0] >= to_insert);
                        } else {
                            assert(v0[b] >= s[r0 - 1]);
                        }
                    } else if a < b0 + r0 {
                        if b < b0 + r0 {
                            assert(p[a - r0] <= p[b - r0]);
                        } else {
                            assert(v0[b] >= p[a - r0]);
                        }
                    }
                }
                assert forall|k: int, jj: int|
                    t0 + r0 - 1 <= k < total && 0 <= jj < t0 implies v[k] >= p[jj] by {
                    if k == t0 + r0 - 1 {
                        assert(p[jj] < to_insert);
                    } else if k < b0 + r0 {
                        assert(p[jj] < p[k - r0]);
                    } else {
                        assert(v0[k] >= p[jj]);
                    }
                }
                assert forall|k: int, ii: int|
                    t0 + r0 - 1 <= k < total && 0 <= ii < r0 - 1 implies v[k] >= s[ii] by {
                    if k == t0 + r0 - 1 {
                        assert(s[ii] <= s[r0 - 1]);
                    } else if k < b0 + r0 {
                        assert(p[k - r0] >= to_insert && s[ii] <= s[r0 - 1]);
                    } else {
                        assert(v0[k] >= s[ii]);
                    }
                }
                if !duplicates {
                    assert forall|a: int, b: int|
                        t0 + r0 - 1 <= a < b < total implies v[a] < v[b] by {
                        if a == t0 + r0 - 1 {
                            if b < b0 + r0 {
                                assert(p[b - r0] > to_insert);
                            } else {
                                assert(v0[b] > s[r0 - 1]);
                            }
                        } else if a < b0 + r0 {
                            if b < b0 + r0 {
                                assert(p[a - r0] < p[b - r0]);
                            } else {
                                assert(v0[b] > p[a - r0]);
                            }
                        }
                    }
                    assert forall|k: int, jj: int|
                        t0 + r0 - 1 <= k < total && 0 <= jj < t0 implies v[k] > p[jj] by {
                        if k == t0 + r0 - 1 {
                            assert(p[jj] < to_insert);
                        } else if k < b0 + r0 {
                            assert(p[jj] < p[k - r0]);
                        } else {
                            assert(v0[k] > p[jj]);
                        }
                    }
                    assert forall|k: int, ii: int|
                        t0 + r0 - 1 <= k < total && 0 <= ii < r0 - 1 implies v[k] > s[ii] by {
                        assert(s[ii] < s[r0 - 1]);
                        if k == t0 + r0 - 1 {
                        } else if k < b0 + r0 {
                            assert(p[k - r0] > to_insert);
                        } else {
                            assert(v0[k] > s[ii]);
                        }
                    }
                    assert forall|jj: int, ii: int|
                        t0 <= jj < n0 && 0 <= ii < r0 - 1 implies p[jj] > s[ii] by {
                        assert(s[ii] <= s[r0 - 1]);
                        if jj < b0 {
                            assert(p[jj] > to_insert);
                            assert(s[ii] < s[r0 - 1]);
                        } else {
                            assert(p[jj] > s[ii]);
                        }
                    }
                    assert forall|ii: int, jj: int|
                        r0 - 1 <= ii < m && 0 <= jj < n0 implies p[jj] != s[ii] by {
                        if ii == r0 - 1 {
                            if jj < t0 {
                                assert(p[jj] < to_insert);
                            } else if jj < b0 {
                                assert(p[jj] > to_insert);
                            } else {
                                assert(p[jj] > s[ii]);
                            }
                        }
                    }
                }
            }
        }
        // the array is now one sorted run; collapse duplicates if any arose
        proof {
            let v = self.0@;
            assert forall|a: int, b: int| 0 <= a < b < total implies v[a] <= v[b] by {
                if b < boundary {
                    assert(v[a] == p[a] && v[b] == p[b]);
                } else if a >= boundary {
                } else {
                    assert(v[a] == p[a]);
                    assert(v[b] >= p[a]);
                }
            }
            // the whole array holds the old contents plus the batch
            broadcast use vstd::seq_lib::lemma_multiset_commutative;
            broadcast use vstd::multiset::group_multiset_axioms;
            assert(v =~= v.subrange(0, boundary as int) + v.subrange(boundary as int, total as int));
            assert(v.subrange(0, boundary as int) =~= p.subrange(0, boundary as int));
            assert(s.subrange(0, m as int) =~= s);
            assert(p =~= p.subrange(0, boundary as int) + p.subrange(boundary as int, n0 as int));
            assert(v.to_multiset() =~= p.to_multiset().add(batch.to_multiset()));
            assert((p + batch).to_multiset() == p.to_multiset().add(batch.to_multiset()));
            lemma_multiset_eq_to_set(v, p + batch);
            lemma_concat_to_set(p, batch);
        }
        if duplicates {
            dedup_sorted(&mut self.0);
        } else {
            proof {
                let v = self.0@;
                assert forall|a: int, b: int| 0 <= a < b < total implies v[a] < v[b] by {
                    if b < boundary {
                        assert(v[a] == p[a] && v[b] == p[b]);
                    } else if a >= boundary {
                    } else {
                        assert(v[a] == p[a]);
                        assert(v[b] > p[a]);
                    }
                }
            }
        }
    }

    /// Bulk insert, per-item strategy: binary-search-and-shift-insert each
    /// batch item independently, skipping the ones already present.
    pub fn extend_with_inserts(&mut self, items: Vec<i64>)
        requires
            old(self).wf(),
        ensures
            final(self).wf(),
            final(self)@.to_set() == old(self)@.to_set().union(items@.to_set()),
    {
        let ghost pre = self@;
        let mut i: usize = 0;
        while i < items.len()
            invariant
                i <= items@.len(),
                self.wf(),
                self@.to_set() == pre.to_set().union(items@.subrange(0, i as int).to_set()),
            decreases items@.len() - i,
        {
            let x = items[i];
            self.insert(x);
            proof {
                broadcast use vstd::seq_lib::group_seq_properties;
                assert(items@.subrange(0, i + 1) =~= items@.subrange(0, i as int).push(x));
                assert(items@.subrange(0, i + 1).to_set()
                    =~= items@.subrange(0, i as int).to_set().insert(x));
                assert(self@.to_set() =~= pre.to_set().union(items@.subrange(0, i + 1).to_set()));
            }
            i += 1;
        }
        proof {
            assert(items@.subrange(0, items@.len() as int) =~= items@);
        }
    }
}

/// The values of a concatenation are the union of each part's values.
proof fn lemma_concat_to_set(a: Seq<i64>, b: Seq<i64>)
    ensures
        (a + b).to_set() == a.to_set().union(b.to_set()),
{
    assert forall|x: i64| (a + b).to_set().contains(x)
        implies a.to_set().union(b.to_set()).contains(x) by {
        let j = choose|j: int| 0 <= j < (a + b).len() && (a + b)[j] == x;
        if j < a.len() {
            assert(a[j] == x);
        } else {
            assert(b[j - a.len()] == x);
        }
    }
    assert forall|x: i64| a.to_set().union(b.to_set()).contains(x)
        implies (a + b).to_set().contains(x) by {
        if a.to_set().contains(x) {
            let j = choose|j: int| 0 <= j < a.len() && a[j] == x;
            assert((a + b)[j] == x);
        } else {
            let j = choose|j: int| 0 <= j < b.len() && b[j] == x;
            assert((a + b)[a.len() + j] == x);
        }
    }
    assert((a + b).to_set() =~= a.to_set().union(b.to_set()));
}

} // verus!
