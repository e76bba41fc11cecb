//! Laws relating the merge strategies: a strictly increasing sequence is
//! determined by the set of its values, so any two bulk-insert strategies
//! that promise the same final value set produce identical arrays.

use vstd::prelude::*;
use crate::search::strictly_sorted;
use crate::set::BinarySet;

verus! {

/// A strictly increasing sequence is canonical: two of them holding the
/// same set of values are equal element for element.
pub proof fn lemma_strictly_sorted_unique(a: Seq<i64>, b: Seq<i64>)
    requires
        strictly_sorted(a),
        strictly_sorted(b),
        a.to_set() == b.to_set(),
    ensures
        a == b,
    decreases a.len(),
{
    if a.len() == 0 {
        if b.len() > 0 {
            assert(b.to_set().contains(b[0]));
            assert(a.contains(b[0]));
        }
        assert(a =~= b);
    } else {
        assert(a.to_set().contains(a[0]));
        assert(b.contains(a[0]));
        let j = choose|j: int| 0 <= j < b.len() && b[j] == a[0];
        assert(b.to_set().contains(b[0]));
        assert(a.contains(b[0]));
        let i = choose|i: int| 0 <= i < a.len() && a[i] == b[0];
        assert(b[0] <= b[j]);
        assert(a[0] <= a[i]);
        assert(a[0] == b[0]);
        let ta = a.subrange(1, a.len() as int);
        let tb = b.subrange(1, b.len() as int);
        assert(strictly_sorted(ta));
        assert(strictly_sorted(tb));
        assert forall|x: i64| ta.to_set().contains(x)
            implies a.to_set().remove(a[0]).contains(x) by {
            let k = choose|k: int| 0 <= k < ta.len() && ta[k] == x;
            assert(a[k + 1] == x);
            assert(a[0] < a[k + 1]);
        }
        assert forall|x: i64| a.to_set().remove(a[0]).contains(x)
            implies ta.to_set().contains(x) by {
            let k = choose|k: int| 0 <= k < a.len() && a[k] == x;
            assert(k != 0);
            assert(ta[k - 1] == x);
        }
        assert(ta.to_set() =~= a.to_set().remove(a[0]));
        assert forall|x: i64| tb.to_set().contains(x)
            implies b.to_set().remove(b[0]).contains(x) by {
            let k = choose|k: int| 0 <= k < tb.len() && tb[k] == x;
            assert(b[k + 1] == x);
            assert(b[0] < b[k + 1]);
        }
        assert forall|x: i64| b.to_set().remove(b[0]).contains(x)
            implies tb.to_set().contains(x) by {
            let k = choose|k: int| 0 <= k < b.len() && b[k] == x;
            assert(k != 0);
            assert(tb[k - 1] == x);
        }
        assert(tb.to_set() =~= b.to_set().remove(b[0]));
        lemma_strictly_sorted_unique(ta, tb);
        assert forall|k: int| 0 <= k < a.len() implies a[k] == b[k] by {
            if k > 0 {
                assert(ta[k - 1] == tb[k - 1]);
            }
        }
        assert(a =~= b);
    }
}

/// Equivalence across merge strategies: `extend`, `extend_with_inserts` and
/// `extend_with_rotates` each promise a well-formed set whose values are the
/// union of the starting contents and the batch, so applying the three to
/// copies of one starting set with one batch yields three sets that this law
/// shows hold identical stored sequences.
pub proof fn lemma_merge_strategies_agree(s1: BinarySet, s2: BinarySet, s3: BinarySet)
    requires
        s1.wf(),
        s2.wf(),
        s3.wf(),
        s1@.to_set() == s2@.to_set(),
        s2@.to_set() == s3@.to_set(),
    ensures
        s1@ == s2@,
        s2@ == s3@,
{
    lemma_strictly_sorted_unique(s1@, s2@);
    lemma_strictly_sorted_unique(s2@, s3@);
}

} // verus!
