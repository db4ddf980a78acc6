//! First-match association sequences.
//!
//! Both registries of the filesystem double — the tree of entries and the
//! descriptor table — are association sequences with distinct keys.  The
//! lookup function and the lemmas here describe how a lookup reacts to an
//! append or a removal.

use vstd::prelude::*;

verus! {

/// The value stored under the first occurrence of key `k`, if any.
pub open spec fn assoc_lookup<K, V>(s: Seq<(K, V)>, k: K) -> Option<V>
    decreases s.len(),
{
    if s.len() == 0 {
        None
    } else if s[0].0 == k {
        Some(s[0].1)
    } else {
        assoc_lookup(s.drop_first(), k)
    }
}

/// No key occurs twice.
pub open spec fn distinct_keys<K, V>(s: Seq<(K, V)>) -> bool {
    forall|i: int, j: int| 0 <= i < j < s.len() ==> s[i].0 != s[j].0
}

/// A lookup of the key at a first-match index yields that index's value.
pub proof fn lemma_lookup_at_index<K, V>(s: Seq<(K, V)>, i: int)
    requires
        0 <= i < s.len(),
        forall|j: int| 0 <= j < i ==> s[j].0 != s[i].0,
    ensures
        assoc_lookup(s, s[i].0) == Some(s[i].1),
    decreases i,
{
    if i > 0 {
        lemma_lookup_at_index(s.drop_first(), i - 1);
    }
}

/// A key under no index is not found.
pub proof fn lemma_lookup_absent<K, V>(s: Seq<(K, V)>, k: K)
    requires
        forall|i: int| 0 <= i < s.len() ==> s[i].0 != k,
    ensures
        assoc_lookup(s, k) is None,
    decreases s.len(),
{
    if s.len() > 0 {
        lemma_lookup_absent(s.drop_first(), k);
    }
}

/// A key present at some index is found.
pub proof fn lemma_present_lookup_some<K, V>(s: Seq<(K, V)>, i: int)
    requires
        0 <= i < s.len(),
    ensures
        assoc_lookup(s, s[i].0) is Some,
    decreases s.len(),
{
    if s[0].0 == s[i].0 {
    } else {
        lemma_present_lookup_some(s.drop_first(), i - 1);
    }
}

/// Appending a pair leaves every present key as it was and adds the new one.
pub proof fn lemma_lookup_push<K, V>(s: Seq<(K, V)>, k: K, v: V, q: K)
    ensures
        assoc_lookup(s.push((k, v)), q) == if assoc_lookup(s, q) is Some {
            assoc_lookup(s, q)
        } else if q == k {
            Some(v)
        } else {
            None::<V>
        },
    decreases s.len(),
{
    if s.len() == 0 {
        assert(s.push((k, v)).drop_first() =~= s);
    } else {
        lemma_lookup_push(s.drop_first(), k, v, q);
        assert(s.push((k, v)).drop_first() =~= s.drop_first().push((k, v)));
        assert(s.push((k, v))[0] == s[0]);
    }
}

/// Removing an index of distinct keys erases exactly that key.
pub proof fn lemma_lookup_remove<K, V>(s: Seq<(K, V)>, i: int, q: K)
    requires
        distinct_keys(s),
        0 <= i < s.len(),
    ensures
        assoc_lookup(s.remove(i), q) == if q == s[i].0 {
            None::<V>
        } else {
            assoc_lookup(s, q)
        },
    decreases s.len(),
{
    if i == 0 {
        assert(s.remove(0) =~= s.drop_first());
        if q == s[0].0 {
            assert(forall|j: int|
                0 <= j < s.drop_first().len() ==> s.drop_first()[j].0 != q) by {
                assert(forall|j: int| 0 <= j < s.len() - 1 ==> s.drop_first()[j] == s[j + 1]);
            }
            lemma_lookup_absent(s.drop_first(), q);
        }
    } else {
        assert(s.remove(i)[0] == s[0]);
        if s[0].0 == q {
        } else {
            assert(distinct_keys(s.drop_first())) by {
                assert(forall|j: int| 0 <= j < s.len() - 1 ==> s.drop_first()[j] == s[j + 1]);
            }
            lemma_lookup_remove(s.drop_first(), i - 1, q);
            assert(s.remove(i).drop_first() =~= s.drop_first().remove(i - 1));
        }
    }
}

/// Distinct keys stay distinct when an index is removed.
pub proof fn lemma_distinct_remove<K, V>(s: Seq<(K, V)>, i: int)
    requires
        distinct_keys(s),
        0 <= i < s.len(),
    ensures
        distinct_keys(s.remove(i)),
{
    assert(forall|j: int|
        0 <= j < s.remove(i).len() ==> s.remove(i)[j] == (if j < i {
            s[j]
        } else {
            s[j + 1]
        }));
}

} // verus!
