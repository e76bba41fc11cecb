//! An ordered key-value collection: two index-aligned contiguous arrays,
//! `keys` strictly increasing, `values[i]` associated with `keys[i]`.
//! Lookups binary-search the key array; range queries resolve their bounds
//! to one contiguous index range.

use vstd::prelude::*;
use crate::search::{
    lemma_strictly_sorted_insert, lemma_strictly_sorted_remove, lower_bound, strictly_sorted,
    vec_element,
};
use crate::set::vec_capacity;

verus! {

/// A map from `i64` keys to values, stored as two aligned sorted arrays.
#[derive(Debug, Clone, PartialEq, Eq, PartialOrd, Ord, Default)]
pub struct BinaryMap<V> {
    keys: Vec<i64>,
    values: Vec<V>,
}

/// The value bound to `k` by the first pair of `pairs` whose key is `k`,
/// or nothing when no pair has that key.
pub open spec fn first_key_value<V>(pairs: Seq<(i64, V)>, k: i64) -> Option<V>
    decreases pairs.len(),
{
    if pairs.len() == 0 {
        None
    } else if pairs[0].0 == k {
        Some(pairs[0].1)
    } else {
        first_key_value(pairs.drop_first(), k)
    }
}

/// Appending a pair binds its key only where no earlier pair already did.
proof fn lemma_first_key_value_push<V>(s: Seq<(i64, V)>, p: (i64, V), k: i64)
    ensures
        first_key_value(s.push(p), k) == (if first_key_value(s, k) is Some {
            first_key_value(s, k)
        } else if p.0 == k {
            Some(p.1)
        } else {
            None::<V>
        }),
    decreases s.len(),
{
    if s.len() == 0 {
        assert(s.push(p)[0] == p);
        assert(s.push(p).drop_first() =~= Seq::<(i64, V)>::empty());
        assert(first_key_value(Seq::<(i64, V)>::empty(), k) == None::<V>);
        assert(first_key_value(s, k) == None::<V>);
    } else {
        assert(s.push(p)[0] == s[0]);
        assert(s.push(p).drop_first() =~= s.drop_first().push(p));
        lemma_first_key_value_push(s.drop_first(), p, k);
        if s[0].0 == k {
            assert(first_key_value(s, k) == Some(s[0].1));
            assert(first_key_value(s.push(p), k) == Some(s[0].1));
        } else {
            assert(first_key_value(s, k) == first_key_value(s.drop_first(), k));
            assert(first_key_value(s.push(p), k)
                == first_key_value(s.drop_first().push(p), k));
        }
    }
}

/// In a strictly increasing sequence an occurrence of `k` is the only one,
/// so `index_of` resolves to it.
proof fn lemma_index_of_unique(keys: Seq<i64>, k: i64, idx: int)
    requires
        strictly_sorted(keys),
        0 <= idx < keys.len(),
        keys[idx] == k,
    ensures
        keys.contains(k),
        keys.index_of(k) == idx,
{
    assert(keys.contains(k));
    let j = keys.index_of(k);
    assert(0 <= j < keys.len() && keys[j] == k);
    if j < idx {
        assert(keys[j] < keys[idx]);
    } else if j > idx {
        assert(keys[idx] < keys[j]);
    }
}

/// One endpoint of a range query: open, or closed/open around a key.
#[derive(Debug, Clone, Copy, PartialEq, Eq)]
pub enum KeyBound {
    /// No constraint from this endpoint.
    Unbounded,
    /// The endpoint key itself belongs to the range.
    Included(i64),
    /// Everything up to but excluding the endpoint key.
    Excluded(i64),
}

/// Whether `k` lies on the inner side of the start bound `b`.
pub open spec fn start_ok(b: KeyBound, k: i64) -> bool {
    match b {
        KeyBound::Unbounded => true,
        KeyBound::Included(x) => k >= x,
        KeyBound::Excluded(x) => k > x,
    }
}

/// Whether `k` lies on the inner side of the end bound `b`.
pub open spec fn end_ok(b: KeyBound, k: i64) -> bool {
    match b {
        KeyBound::Unbounded => true,
        KeyBound::Included(x) => k <= x,
        KeyBound::Excluded(x) => k < x,
    }
}

impl<V> BinaryMap<V> {
    /// The stored key sequence, in storage order.
    pub closed spec fn key_seq(self) -> Seq<i64> {
        self.keys@
    }

    /// The stored value sequence, index-aligned with the keys.
    pub closed spec fn val_seq(self) -> Seq<V> {
        self.values@
    }

    /// The two sequences are index-aligned and the keys strictly increase.
    pub open spec fn wf(self) -> bool {
        &&& strictly_sorted(self.key_seq())
        &&& self.key_seq().len() == self.val_seq().len()
    }

    /// The value bound to `k`, or nothing when `k` is not a stored key.
    pub open spec fn spec_get(self, k: i64) -> Option<V> {
        if self.key_seq().contains(k) {
            Some(self.val_seq()[self.key_seq().index_of(k)])
        } else {
            None
        }
    }

    /// An empty map.
    pub fn new() -> (r: BinaryMap<V>)
        ensures
            r.wf(),
            r.key_seq() == Seq::<i64>::empty(),
            r.val_seq() == Seq::<V>::empty(),
    {
        BinaryMap { keys: Vec::new(), values: Vec::new() }
    }

    /// An empty map whose two backing arrays are pre-reserved for
    /// `capacity` entries; the reservation never affects the contents.
    pub fn with_capacity(capacity: usize) -> (r: BinaryMap<V>)
        ensures
            r.wf(),
            r.key_seq() == Seq::<i64>::empty(),
            r.val_seq() == Seq::<V>::empty(),
    {
        BinaryMap { keys: Vec::with_capacity(capacity), values: Vec::with_capacity(capacity) }
    }

    /// The number of stored key-value pairs.
    pub fn len(&self) -> (r: usize)
        ensures
            r == self.key_seq().len(),
    {
        self.keys.len()
    }

    /// How many pairs the backing storage can hold without reallocating.
    pub fn capacity(&self) -> (r: usize)
        ensures
            r >= self.key_seq().len(),
    {
        vec_capacity(&self.keys)
    }

    /// Reserve room for at least `additional` more pairs in both backing
    /// arrays; the contents are unchanged.
    pub fn reserve(&mut self, additional: usize)
        ensures
            final(self).key_seq() == old(self).key_seq(),
            final(self).val_seq() == old(self).val_seq(),
    {
        self.keys.reserve(additional);
        self.values.reserve(additional);
    }

    /// The stored keys, ascending.
    pub fn keys(&self) -> (r: &Vec<i64>)
        ensures
            r@ == self.key_seq(),
    {
        &self.keys
    }

    /// The stored values, in ascending-key order.
    pub fn values(&self) -> (r: &Vec<V>)
        ensures
            r@ == self.val_seq(),
    {
        &self.values
    }

    /// Give up the map and keep only its key array.
    pub fn into_keys(self) -> (r: Vec<i64>)
        ensures
            r@ == self.key_seq(),
    {
        self.keys
    }

    /// Give up the map and keep only its value array.
    pub fn into_values(self) -> (r: Vec<V>)
        ensures
            r@ == self.val_seq(),
    {
        self.values
    }

    /// Empty the map; the backing capacity may be retained.
    pub fn clear(&mut self)
        ensures
            final(self).wf(),
            final(self).key_seq() == Seq::<i64>::empty(),
            final(self).val_seq() == Seq::<V>::empty(),
    {
        self.keys.clear();
        self.values.clear();
    }

    /// Binary-search `keys` for `key`; reports whether it is present and
    /// either its index or the index where it would be inserted.
    fn find_index(&self, key: i64) -> (r: (bool, usize))
        requires
            self.wf(),
        ensures
            r.1 <= self.key_seq().len(),
            r.0 ==> r.1 < self.key_seq().len() && self.key_seq()[r.1 as int] == key,
            r.0 == self.key_seq().contains(key),
            forall|j: int| 0 <= j < r.1 ==> self.key_seq()[j] < key,
            forall|j: int| r.1 <= j < self.key_seq().len() ==> self.key_seq()[j] >= key,
    {
        let idx = lower_bound(&self.keys, 0, self.keys.len(), key);
        if idx < self.keys.len() && *vec_element(&self.keys, idx) == key {
            proof {
                assert(self.key_seq()[idx as int] == key);
            }
            (true, idx)
        } else {
            proof {
                assert forall|j: int| 0 <= j < self.key_seq().len()
                    implies self.key_seq()[j] != key by {
                    if j >= idx {
                        assert(self.key_seq()[j] >= key);
                    }
                }
            }
            (false, idx)
        }
    }

    /// Binary-search for `key`: a reference to its value, or `None` when
    /// the key is absent.
    pub fn get(&self, key: i64) -> (r: Option<&V>)
        requires
            self.wf(),
        ensures
            match r {
                Some(v) => self.spec_get(key) == Some(*v),
                None => self.spec_get(key) is None,
            },
    {
        let (found, idx) = self.find_index(key);
        if found {
            proof {
                lemma_index_of_unique(self.key_seq(), key, idx as int);
            }
            Some(vec_element(&self.values, idx))
        } else {
            None
        }
    }

    /// Bind `value` to `key`. When the key is already stored its value is
    /// swapped out and the previous one handed back; otherwise key and
    /// value are inserted at the same index of their two arrays, keeping
    /// them aligned, and no previous value exists.
    pub fn insert(&mut self, key: i64, value: V) -> (r: Option<V>)
        requires
            old(self).wf(),
        ensures
            final(self).wf(),
            r == old(self).spec_get(key),
            final(self).spec_get(key) == Some(value),
            forall|k2: i64| k2 != key ==> final(self).spec_get(k2) == old(self).spec_get(k2),
            final(self).key_seq().to_set() == old(self).key_seq().to_set().insert(key),
            old(self).key_seq().contains(key) ==> final(self).key_seq() == old(self).key_seq(),
            !old(self).key_seq().contains(key)
                ==> final(self).key_seq().len() == old(self).key_seq().len() + 1,
    {
        let (found, idx) = self.find_index(key);
        let ghost oldk = self.keys@;
        let ghost oldv = self.values@;
        if found {
            let prev = self.values.remove(idx);
            self.values.insert(idx, value);
            proof {
                assert(self.values@ =~= oldv.update(idx as int, value));
                lemma_index_of_unique(oldk, key, idx as int);
                assert forall|k2: i64| k2 != key
                    implies self.spec_get(k2) == old(self).spec_get(k2) by {
                    if oldk.contains(k2) {
                        let j = oldk.index_of(k2);
                        assert(oldk[j] == k2);
                        assert(j != idx);
                        assert(self.values@[j] == oldv[j]);
                    }
                }
                assert(oldk.to_set().insert(key) =~= oldk.to_set());
            }
            Some(prev)
        } else {
            self.keys.insert(idx, key);
            self.values.insert(idx, value);
            proof {
                assert forall|j: int| idx <= j < oldk.len() implies oldk[j] > key by {
                    assert(oldk[j] >= key);
                    assert(!oldk.contains(key));
                }
                lemma_strictly_sorted_insert(oldk, idx as int, key);
                oldk.insert_ensures(idx as int, key);
                oldv.insert_ensures(idx as int, value);
                lemma_index_of_unique(self.keys@, key, idx as int);
                assert forall|k2: i64| k2 != key
                    implies self.spec_get(k2) == old(self).spec_get(k2) by {
                    if oldk.contains(k2) {
                        let j = oldk.index_of(k2);
                        assert(oldk[j] == k2);
                        if j < idx {
                            assert(self.keys@[j] == k2);
                            lemma_index_of_unique(self.keys@, k2, j);
                            assert(self.values@[j] == oldv[j]);
                        } else {
                            assert(self.keys@[j + 1] == k2);
                            lemma_index_of_unique(self.keys@, k2, j + 1);
                            assert(self.values@[j + 1] == oldv[j]);
                        }
                    } else {
                        if self.keys@.contains(k2) {
                            let j2 = choose|j2: int|
                                0 <= j2 < self.keys@.len() && self.keys@[j2] == k2;
                            if j2 < idx {
                                assert(oldk[j2] == k2);
                            } else if j2 > idx {
                                assert(oldk[j2 - 1] == k2);
                            }
                        }
                    }
                }
            }
            None
        }
    }

    /// Binary-search for `key`; when found, drop the pair at its index
    /// from both arrays (they always succeed together, by the length
    /// invariant) and hand back the removed value; otherwise report
    /// absence and change nothing.
    pub fn remove(&mut self, key: i64) -> (r: Option<V>)
        requires
            old(self).wf(),
        ensures
            final(self).wf(),
            r == old(self).spec_get(key),
            final(self).spec_get(key) is None,
            forall|k2: i64| k2 != key ==> final(self).spec_get(k2) == old(self).spec_get(k2),
            final(self).key_seq().to_set() == old(self).key_seq().to_set().remove(key),
            !old(self).key_seq().contains(key) ==> final(self).key_seq() == old(self).key_seq()
                && final(self).val_seq() == old(self).val_seq(),
    {
        let (found, idx) = self.find_index(key);
        let ghost oldk = self.keys@;
        let ghost oldv = self.values@;
        if found {
            self.keys.remove(idx);
            let v = self.values.remove(idx);
            proof {
                lemma_index_of_unique(oldk, key, idx as int);
                lemma_strictly_sorted_remove(oldk, idx as int);
                oldk.remove_ensures(idx as int);
                oldv.remove_ensures(idx as int);
                assert forall|k2: i64| k2 != key
                    implies self.spec_get(k2) == old(self).spec_get(k2) by {
                    if oldk.contains(k2) {
                        let j = oldk.index_of(k2);
                        assert(oldk[j] == k2);
                        assert(j != idx);
                        if j < idx {
                            assert(self.keys@[j] == k2);
                            lemma_index_of_unique(self.keys@, k2, j);
                            assert(self.values@[j] == oldv[j]);
                        } else {
                            assert(self.keys@[j - 1] == k2);
                            lemma_index_of_unique(self.keys@, k2, j - 1);
                            assert(self.values@[j - 1] == oldv[j]);
                        }
                    } else {
                        if self.keys@.contains(k2) {
                            let j2 = choose|j2: int|
                                0 <= j2 < self.keys@.len() && self.keys@[j2] == k2;
                            if j2 < idx {
                                assert(oldk[j2] == k2);
                            } else {
                                assert(oldk[j2 + 1] == k2);
                            }
                        }
                    }
                }
            }
            Some(v)
        } else {
            proof {
                assert(oldk.to_set().remove(key) =~= oldk.to_set());
            }
            None
        }
    }

    /// Binary-search for `key` and hand back a mutable reference to its
    /// value, through which the caller may replace it; the key array is
    /// untouched either way.
    pub fn get_mut(&mut self, key: i64) -> (r: Option<&mut V>)
        requires
            old(self).wf(),
        ensures
            final(self).wf(),
            final(self).key_seq() == old(self).key_seq(),
            match r {
                None => old(self).spec_get(key) is None
                    && final(self).val_seq() == old(self).val_seq(),
                Some(v) => old(self).spec_get(key) == Some(*v)
                    && final(self).val_seq() == old(self).val_seq().update(
                        old(self).key_seq().index_of(key),
                        *final(v),
                    ) && final(self).spec_get(key) == Some(*final(v)),
            },
    {
        let (found, idx) = self.find_index(key);
        if found {
            proof {
                lemma_index_of_unique(self.keys@, key, idx as int);
            }
            Some(&mut self.values[idx])
        } else {
            None
        }
    }

    /// Build a map from an arbitrary sequence of pairs. Among pairs with
    /// equal keys the first one in the input wins; the result binds each
    /// key of the input to the value of its first occurrence.
    pub fn from_sequence(pairs: Vec<(i64, V)>) -> (r: BinaryMap<V>)
        ensures
            r.wf(),
            forall|k: i64| r.spec_get(k) == first_key_value(pairs@, k),
    {
        let ghost all = pairs@;
        let mut rest = pairs;
        let mut r = BinaryMap::new();
        proof {
            assert(all.subrange(0, 0) =~= Seq::<(i64, V)>::empty());
        }
        while rest.len() > 0
            invariant
                r.wf(),
                rest@.len() <= all.len(),
                rest@ == all.subrange(all.len() - rest@.len(), all.len() as int),
                forall|k: i64| r.spec_get(k)
                    == first_key_value(all.subrange(0, all.len() - rest@.len()), k),
            decreases rest@.len(),
        {
            let ghost done = all.len() - rest@.len();
            let pair = rest.remove(0);
            proof {
                assert(pair == all[done as int]);
                assert(rest@ =~= all.subrange(done + 1, all.len() as int));
            }
            let (found, _) = r.find_index(pair.0);
            if !found {
                r.insert(pair.0, pair.1);
            }
            proof {
                let prefix = all.subrange(0, done as int);
                assert(all.subrange(0, done + 1) =~= prefix.push(pair));
                assert forall|k: i64| r.spec_get(k)
                    == first_key_value(all.subrange(0, done + 1), k) by {
                    lemma_first_key_value_push(prefix, pair, k);
                }
            }
        }
        proof {
            assert(all.subrange(0, all.len() as int) =~= all);
        }
        r
    }
    /// Resolve a start and an end bound to one contiguous index range
    /// `[r.0, r.1)` over the two aligned arrays: each bound is binary-
    /// searched once, eagerly, and an included end that hits a stored key
    /// extends the range past that key's index. Bounds outside the stored
    /// keys resolve to the nearest array edge. The range over the pair
    /// `keys()[r.0..r.1]` / `values()[r.0..r.1]` holds exactly the stored
    /// pairs satisfying both bounds.
    pub fn range(&self, start: KeyBound, end: KeyBound) -> (r: (usize, usize))
        requires
            self.wf(),
            forall|i: int| 0 <= i < self.key_seq().len()
                ==> start_ok(start, #[trigger] self.key_seq()[i])
                    || end_ok(end, self.key_seq()[i]),
        ensures
            r.0 <= r.1 <= self.key_seq().len(),
            forall|i: int| 0 <= i < self.key_seq().len()
                ==> (i < r.0 <==> !start_ok(start, #[trigger] self.key_seq()[i])),
            forall|i: int| 0 <= i < self.key_seq().len()
                ==> (i < r.1 <==> end_ok(end, #[trigger] self.key_seq()[i])),
            forall|i: int| 0 <= i < self.key_seq().len()
                ==> (r.0 <= i < r.1 <==> start_ok(start, #[trigger] self.key_seq()[i])
                    && end_ok(end, self.key_seq()[i])),
    {
        let lo = self.start_index(start);
        let hi = self.end_index(end);
        proof {
            if lo > hi {
                assert(hi < self.key_seq().len());
                assert(!start_ok(start, self.key_seq()[hi as int]));
                assert(!end_ok(end, self.key_seq()[hi as int]));
            }
        }
        (lo, hi)
    }

    /// The first index whose key satisfies the start bound; every earlier
    /// key violates it.
    fn start_index(&self, b: KeyBound) -> (r: usize)
        requires
            self.wf(),
        ensures
            r <= self.key_seq().len(),
            forall|i: int| 0 <= i < self.key_seq().len()
                ==> (i < r <==> !start_ok(b, #[trigger] self.key_seq()[i])),
    {
        let n = self.keys.len();
        match b {
            KeyBound::Unbounded => 0,
            KeyBound::Included(k) => lower_bound(&self.keys, 0, n, k),
            KeyBound::Excluded(k) => {
                let t = lower_bound(&self.keys, 0, n, k);
                if t < n && *vec_element(&self.keys, t) == k {
                    proof {
                        let ks = self.key_seq();
                        assert forall|i: int| 0 <= i < ks.len()
                            implies (i < t + 1 <==> !start_ok(b, ks[i])) by {
                            if i < t {
                                assert(ks[i] < k);
                            } else if i == t {
                            } else {
                                assert(ks[t as int] < ks[i]);
                            }
                        }
                    }
                    t + 1
                } else {
                    proof {
                        let ks = self.key_seq();
                        assert forall|i: int| 0 <= i < ks.len()
                            implies (i < t <==> !start_ok(b, ks[i])) by {
                            if i >= t {
                                assert(ks[t as int] >= k);
                                assert(ks[t as int] != k);
                                if i > t {
                                    assert(ks[t as int] < ks[i]);
                                }
                            }
                        }
                    }
                    t
                }
            },
        }
    }

    /// The first index past the keys satisfying the end bound; every key
    /// from it on violates the bound.
    fn end_index(&self, b: KeyBound) -> (r: usize)
        requires
            self.wf(),
        ensures
            r <= self.key_seq().len(),
            forall|i: int| 0 <= i < self.key_seq().len()
                ==> (i < r <==> end_ok(b, #[trigger] self.key_seq()[i])),
    {
        let n = self.keys.len();
        match b {
            KeyBound::Unbounded => n,
            KeyBound::Included(k) => {
                let t = lower_bound(&self.keys, 0, n, k);
                if t < n && *vec_element(&self.keys, t) == k {
                    proof {
                        let ks = self.key_seq();
                        assert forall|i: int| 0 <= i < ks.len()
                            implies (i < t + 1 <==> end_ok(b, ks[i])) by {
                            if i < t {
                                assert(ks[i] < k);
                            } else if i > t {
                                assert(ks[t as int] < ks[i]);
                            }
                        }
                    }
                    t + 1
                } else {
                    proof {
                        let ks = self.key_seq();
                        assert forall|i: int| 0 <= i < ks.len()
                            implies (i < t <==> end_ok(b, ks[i])) by {
                            if i >= t {
                                assert(ks[t as int] >= k);
                                assert(ks[t as int] != k);
                                if i > t {
                                    assert(ks[t as int] < ks[i]);
                                }
                            }
                        }
                    }
                    t
                }
            },
            KeyBound::Excluded(k) => lower_bound(&self.keys, 0, n, k),
        }
    }

    /// Like `get`, but hands back the stored key alongside the value.
    pub fn get_key_value(&self, key: i64) -> (r: Option<(&i64, &V)>)
        requires
            self.wf(),
        ensures
            match r {
                Some(kv) => *kv.0 == key && self.spec_get(key) == Some(*kv.1),
                None => self.spec_get(key) is None,
            },
    {
        let (found, idx) = self.find_index(key);
        if found {
            proof {
                lemma_index_of_unique(self.key_seq(), key, idx as int);
            }
            Some((vec_element(&self.keys, idx), vec_element(&self.values, idx)))
        } else {
            None
        }
    }
}

} // verus!
