//! Key/value lists with distinct keys, read as finite maps over the keys' and
//! values' views.
use vstd::prelude::*;

verus! {

/// No two entries share a key.
pub open spec fn keys_unique<K: View, V>(s: Seq<(K, V)>) -> bool {
    forall|i: int, j: int|
        0 <= i < s.len() && 0 <= j < s.len() && i != j ==> #[trigger] s[i].0@ != #[trigger] s[j].0@
}

pub open spec fn has_key<K: View, V>(s: Seq<(K, V)>, k: K::V) -> bool {
    exists|i: int| 0 <= i < s.len() && #[trigger] s[i].0@ == k
}

pub open spec fn key_index<K: View, V>(s: Seq<(K, V)>, k: K::V) -> int {
    choose|i: int| 0 <= i < s.len() && #[trigger] s[i].0@ == k
}

/// The map an entry list stands for.
pub open spec fn assoc_map<K: View, V: View>(s: Seq<(K, V)>) -> Map<K::V, V::V> {
    Map::new(|k: K::V| has_key(s, k), |k: K::V| s[key_index(s, k)].1@)
}

/// With distinct keys, an entry's key maps to the entry's value.
pub proof fn lemma_assoc_lookup<K: View, V: View>(s: Seq<(K, V)>, i: int)
    requires
        keys_unique(s),
        0 <= i < s.len(),
    ensures
        assoc_map(s).contains_key(s[i].0@),
        assoc_map(s)[s[i].0@] == s[i].1@,
        key_index(s, s[i].0@) == i,
{
    assert(has_key(s, s[i].0@));
    let j = key_index(s, s[i].0@);
    assert(s[j].0@ == s[i].0@);
}

/// Replacing the value of an entry replaces it in the map.
pub proof fn lemma_assoc_update<K: View, V: View>(s: Seq<(K, V)>, i: int, e: (K, V))
    requires
        keys_unique(s),
        0 <= i < s.len(),
        e.0@ == s[i].0@,
    ensures
        keys_unique(s.update(i, e)),
        assoc_map(s.update(i, e)) =~= assoc_map(s).insert(e.0@, e.1@),
{
    let t = s.update(i, e);
    assert forall|a: int, b: int|
        0 <= a < t.len() && 0 <= b < t.len() && a != b implies #[trigger] t[a].0@ != #[trigger] t[b].0@ by {
        assert(t[a].0@ == s[a].0@);
        assert(t[b].0@ == s[b].0@);
    }
    lemma_assoc_lookup(t, i);
    assert forall|k: K::V| #[trigger] has_key(t, k) <==> has_key(s, k) by {
        if has_key(t, k) {
            let j = key_index(t, k);
            assert(s[j].0@ == k);
        }
        if has_key(s, k) {
            let j = key_index(s, k);
            assert(t[j].0@ == k);
        }
    }
    assert forall|k: K::V| has_key(t, k) && k != e.0@ implies assoc_map(t)[k] == assoc_map(s)[k] by {
        let j = key_index(t, k);
        assert(s[j].0@ == k);
        lemma_assoc_lookup(s, j);
        lemma_assoc_lookup(t, j);
    }
}

/// Appending an entry with a new key adds it to the map.
pub proof fn lemma_assoc_push<K: View, V: View>(s: Seq<(K, V)>, e: (K, V))
    requires
        keys_unique(s),
        !has_key(s, e.0@),
    ensures
        keys_unique(s.push(e)),
        assoc_map(s.push(e)) =~= assoc_map(s).insert(e.0@, e.1@),
{
    let t = s.push(e);
    assert forall|a: int, b: int|
        0 <= a < t.len() && 0 <= b < t.len() && a != b implies #[trigger] t[a].0@ != #[trigger] t[b].0@ by {
        if a < s.len() && b < s.len() {
            assert(t[a] == s[a] && t[b] == s[b]);
        } else if a < s.len() {
            assert(t[a] == s[a]);
        } else {
            assert(t[b] == s[b]);
        }
    }
    lemma_assoc_lookup(t, s.len() as int);
    assert forall|k: K::V| #[trigger] has_key(t, k) <==> (has_key(s, k) || k == e.0@) by {
        if has_key(s, k) {
            let j = key_index(s, k);
            assert(t[j] == s[j]);
        }
        if has_key(t, k) && k != e.0@ {
            let j = key_index(t, k);
            assert(t[j] == s[j]);
        }
    }
    assert forall|k: K::V| has_key(t, k) && k != e.0@ implies assoc_map(t)[k] == assoc_map(s)[k] by {
        let j = key_index(t, k);
        assert(j < s.len());
        assert(t[j] == s[j]);
        lemma_assoc_lookup(s, j);
        lemma_assoc_lookup(t, j);
    }
}

/// The empty list is the empty map.
pub proof fn lemma_assoc_empty<K: View, V: View>(s: Seq<(K, V)>)
    requires
        s.len() == 0,
    ensures
        keys_unique(s),
        assoc_map(s) =~= Map::<K::V, V::V>::empty(),
{
}

} // verus!
