//! Facts about the last occurrence of a value in a sequence, the rule by
//! which a later entry wins over an earlier one with the same key.

use vstd::prelude::*;

verus! {

/// The entry at `i` is the last one of `s` with its value.
pub open spec fn is_last_occurrence<T>(s: Seq<T>, i: int) -> bool {
    0 <= i < s.len() && forall|j: int| i < j < s.len() ==> s[j] != s[i]
}

/// The index of the last entry of `s` equal to `x`, or `-1` when there is
/// none.
pub open spec fn latest_index<T>(s: Seq<T>, x: T) -> int
    decreases s.len(),
{
    if s.len() == 0 {
        -1
    } else if s.last() == x {
        s.len() - 1
    } else {
        latest_index(s.drop_last(), x)
    }
}

/// `latest_index` finds the last entry equal to `x` when there is one, and
/// `-1` exactly when there is none.
pub proof fn lemma_latest_index<T>(s: Seq<T>, x: T)
    ensures
        -1 <= latest_index(s, x) < s.len(),
        latest_index(s, x) == -1 <==> !s.contains(x),
        latest_index(s, x) >= 0 ==> s[latest_index(s, x)] == x && is_last_occurrence(
            s,
            latest_index(s, x),
        ),
    decreases s.len(),
{
    if s.len() > 0 && s.last() != x {
        let t = s.drop_last();
        lemma_latest_index(t, x);
        if s.contains(x) {
            let k = choose|k: int| 0 <= k < s.len() && s[k] == x;
            assert(t[k] == x);
        }
        if t.contains(x) {
            let k = choose|k: int| 0 <= k < t.len() && t[k] == x;
            assert(s[k] == x);
        }
        let l = latest_index(s, x);
        if l >= 0 {
            assert forall|j: int| l < j < s.len() implies s[j] != s[l] by {
                if j < t.len() {
                    assert(t[j] == s[j]);
                }
            }
        }
    } else if s.len() > 0 {
        assert(s[s.len() - 1] == x);
    }
}

/// An entry that is the last one with its value is what `latest_index`
/// finds for that value.
pub proof fn lemma_last_occurrence_is_latest<T>(s: Seq<T>, i: int)
    requires
        is_last_occurrence(s, i),
    ensures
        latest_index(s, s[i]) == i,
{
    lemma_latest_index(s, s[i]);
    let l = latest_index(s, s[i]);
    assert(l >= 0);
    if l < i {
        assert(s[i] != s[l]);
    }
}

/// Every value of a sequence has a last occurrence.
pub proof fn lemma_last_occurrence_exists<T>(s: Seq<T>, x: T)
    requires
        s.contains(x),
    ensures
        exists|k: int| is_last_occurrence(s, k) && s[k] == x,
{
    lemma_latest_index(s, x);
    let l = latest_index(s, x);
    assert(is_last_occurrence(s, l) && s[l] == x);
}

} // verus!
