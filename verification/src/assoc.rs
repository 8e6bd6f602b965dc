//! Association lists: sequences of keys with values.

use vstd::prelude::*;

verus! {

/// The value of the first entry with the given key.
pub open spec fn lookup<K, V>(t: Seq<(K, V)>, key: K) -> Option<V>
    decreases t.len(),
{
    if t.len() == 0 {
        None
    } else if t[0].0 == key {
        Some(t[0].1)
    } else {
        lookup(t.skip(1), key)
    }
}

/// The first entry with a key is the one found.
pub proof fn lemma_lookup_at<K, V>(t: Seq<(K, V)>, key: K, i: int)
    requires
        0 <= i < t.len(),
        t[i].0 == key,
        forall|j: int| 0 <= j < i ==> (#[trigger] t[j]).0 != key,
    ensures
        lookup(t, key) == Some(t[i].1),
    decreases i,
{
    if i > 0 {
        assert(t.skip(1)[i - 1] == t[i]);
        assert forall|j: int| 0 <= j < i - 1 implies (#[trigger] t.skip(1)[j]).0 != key by {
            assert(t.skip(1)[j] == t[j + 1]);
        }
        lemma_lookup_at(t.skip(1), key, i - 1);
    }
}

/// Without an entry of that key nothing is found.
pub proof fn lemma_lookup_none<K, V>(t: Seq<(K, V)>, key: K)
    requires
        forall|j: int| 0 <= j < t.len() ==> (#[trigger] t[j]).0 != key,
    ensures
        lookup(t, key) is None,
    decreases t.len(),
{
    if t.len() > 0 {
        assert forall|j: int| 0 <= j < t.skip(1).len() implies (#[trigger] t.skip(1)[j]).0
            != key by {
            assert(t.skip(1)[j] == t[j + 1]);
        }
        lemma_lookup_none(t.skip(1), key);
    }
}

/// Whether no key occurs twice.
pub open spec fn distinct_keys<K, V>(t: Seq<(K, V)>) -> bool {
    forall|i: int, j: int|
        0 <= i < j < t.len() ==> (#[trigger] t[i]).0 != (#[trigger] t[j]).0
}

/// With distinct keys, every entry is the one found under its key.
pub proof fn lemma_lookup_distinct<K, V>(t: Seq<(K, V)>, i: int)
    requires
        distinct_keys(t),
        0 <= i < t.len(),
    ensures
        lookup(t, t[i].0) == Some(t[i].1),
{
    lemma_lookup_at(t, t[i].0, i);
}

/// Where nothing is found, no entry has that key.
pub proof fn lemma_lookup_absent<K, V>(t: Seq<(K, V)>, key: K)
    requires
        lookup(t, key) is None,
    ensures
        forall|j: int| 0 <= j < t.len() ==> (#[trigger] t[j]).0 != key,
    decreases t.len(),
{
    if t.len() > 0 {
        lemma_lookup_absent(t.skip(1), key);
        assert forall|j: int| 0 <= j < t.len() implies (#[trigger] t[j]).0 != key by {
            if j > 0 {
                assert(t.skip(1)[j - 1] == t[j]);
            }
        }
    }
}

/// What is found stands at some index.
pub proof fn lemma_lookup_index<K, V>(t: Seq<(K, V)>, key: K) -> (i: int)
    requires
        lookup(t, key) is Some,
    ensures
        0 <= i < t.len(),
        t[i].0 == key,
        lookup(t, key) == Some(t[i].1),
    decreases t.len(),
{
    if t[0].0 == key {
        0
    } else {
        lemma_lookup_index(t.skip(1), key) + 1
    }
}

/// Looking up in a concatenation prefers the first part.
pub proof fn lemma_lookup_concat<K, V>(a: Seq<(K, V)>, b: Seq<(K, V)>, key: K)
    ensures
        lookup(a + b, key) == if lookup(a, key) is Some {
            lookup(a, key)
        } else {
            lookup(b, key)
        },
    decreases a.len(),
{
    if a.len() == 0 {
        assert(a + b =~= b);
    } else {
        assert((a + b)[0] == a[0]);
        if a[0].0 != key {
            assert((a + b).skip(1) =~= a.skip(1) + b);
            lemma_lookup_concat(a.skip(1), b, key);
        }
    }
}

/// Looking up after one more entry was appended.
pub proof fn lemma_lookup_push<K, V>(a: Seq<(K, V)>, k: K, v: V, key: K)
    ensures
        lookup(a.push((k, v)), key) == if lookup(a, key) is Some {
            lookup(a, key)
        } else if k == key {
            Some(v)
        } else {
            None
        },
{
    assert(a.push((k, v)) =~= a + seq![(k, v)]);
    lemma_lookup_concat(a, seq![(k, v)], key);
    assert(seq![(k, v)].skip(1) =~= Seq::empty());
    assert(lookup(Seq::<(K, V)>::empty(), key) is None);
}

/// The keys that can be found are finitely many.
pub proof fn lemma_found_finite<K, V>(t: Seq<(K, V)>)
    ensures
        Set::new(|k: K| lookup(t, k) is Some).finite(),
    decreases t.len(),
{
    let s = Set::new(|k: K| lookup(t, k) is Some);
    if t.len() == 0 {
        assert(s =~= Set::empty());
    } else {
        lemma_found_finite(t.skip(1));
        let rest = Set::new(|k: K| lookup(t.skip(1), k) is Some);
        assert(s =~= rest.insert(t[0].0));
    }
}

} // verus!
