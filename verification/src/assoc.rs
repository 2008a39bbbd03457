//! Association lists: sequences of `(key, value)` pairs that are read as
//! maps which remember the order in which their keys were first set.

use vstd::prelude::*;

verus! {

/// The index of the first pair of `pairs` with the key `key`, or
/// `pairs.len()` if there is none.
pub open spec fn key_index<K, V>(pairs: Seq<(K, V)>, key: K) -> int
    decreases pairs.len(),
{
    if pairs.len() == 0 || pairs[0].0 == key {
        0
    } else {
        1 + key_index(pairs.skip(1), key)
    }
}

/// The value that `pairs` holds under `key`.
pub open spec fn lookup<K, V>(pairs: Seq<(K, V)>, key: K) -> Option<V> {
    let i = key_index(pairs, key);
    if 0 <= i < pairs.len() {
        Some(pairs[i].1)
    } else {
        None
    }
}

/// `pairs` with `key` set to `value`: a key already there keeps its place
/// and gets the new value, a new key goes to the end.
pub open spec fn put<K, V>(pairs: Seq<(K, V)>, key: K, value: V) -> Seq<(K, V)> {
    let i = key_index(pairs, key);
    if 0 <= i < pairs.len() {
        pairs.update(i, (key, value))
    } else {
        pairs.push((key, value))
    }
}

/// Whether no key occurs twice in `pairs`.
pub open spec fn distinct_keys<K, V>(pairs: Seq<(K, V)>) -> bool {
    forall|i: int, j: int| 0 <= i < j < pairs.len() ==> pairs[i].0 != pairs[j].0
}

/// `key_index` stays within `pairs`, no pair before it has the key, and
/// where it is inside `pairs` it points at a pair with the key.
pub proof fn lemma_key_index<K, V>(pairs: Seq<(K, V)>, key: K)
    ensures
        0 <= key_index(pairs, key) <= pairs.len(),
        forall|j: int| 0 <= j < key_index(pairs, key) ==> pairs[j].0 != key,
        key_index(pairs, key) < pairs.len() ==> pairs[key_index(pairs, key)].0 == key,
    decreases pairs.len(),
{
    if pairs.len() == 0 || pairs[0].0 == key {
    } else {
        let rest = pairs.skip(1);
        lemma_key_index(rest, key);
        assert forall|j: int| 0 <= j < key_index(pairs, key) implies pairs[j].0 != key by {
            if j > 0 {
                assert(pairs[j] == rest[j - 1]);
            }
        }
        assert(key_index(pairs, key) < pairs.len() ==> pairs[key_index(pairs, key)]
            == rest[key_index(rest, key)]);
    }
}

/// The only index with the three properties of `lemma_key_index` is
/// `key_index` itself.
pub proof fn lemma_key_index_unique<K, V>(pairs: Seq<(K, V)>, key: K, i: int)
    requires
        0 <= i <= pairs.len(),
        forall|j: int| 0 <= j < i ==> pairs[j].0 != key,
        i < pairs.len() ==> pairs[i].0 == key,
    ensures
        key_index(pairs, key) == i,
    decreases pairs.len(),
{
    if pairs.len() == 0 || pairs[0].0 == key {
    } else {
        let rest = pairs.skip(1);
        assert forall|j: int| 0 <= j < i - 1 implies rest[j].0 != key by {
            assert(rest[j] == pairs[j + 1]);
        }
        lemma_key_index_unique(rest, key, i - 1);
    }
}

/// Setting a key keeps the keys distinct, makes `lookup` return the new
/// value under that key, and changes no other key's value.
pub proof fn lemma_put<K, V>(pairs: Seq<(K, V)>, key: K, value: V)
    requires
        distinct_keys(pairs),
    ensures
        distinct_keys(put(pairs, key, value)),
        lookup(put(pairs, key, value), key) == Some(value),
        forall|other: K| other != key ==> lookup(put(pairs, key, value), other) == lookup(pairs, other),
{
    let i = key_index(pairs, key);
    let after = put(pairs, key, value);
    lemma_key_index(pairs, key);
    lemma_key_index_unique(after, key, i);
    assert forall|other: K| other != key implies lookup(after, other) == lookup(
        pairs,
        other,
    ) by {
        let k = key_index(pairs, other);
        lemma_key_index(pairs, other);
        if k < pairs.len() {
            lemma_key_index_unique(after, other, k);
        } else {
            lemma_key_index_unique(after, other, after.len() as int);
        }
    }
}

} // verus!
