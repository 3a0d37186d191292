//! Finding the first entry with a given key in a list.

use vstd::prelude::*;

verus! {

/// The first index at or after `from` at which `keys` holds `key`, or the
/// length of `keys` when there is none.
pub open spec fn first_at<K>(keys: Seq<K>, key: K, from: int) -> int
    decreases keys.len() - from,
{
    if from < 0 || from >= keys.len() {
        keys.len() as int
    } else if keys[from] == key {
        from
    } else {
        first_at(keys, key, from + 1)
    }
}

/// What `first_at` returns is an index that holds the key and the first such,
/// or the length when no index from `from` on holds the key.
pub proof fn lemma_first_at<K>(keys: Seq<K>, key: K, from: int)
    requires
        0 <= from <= keys.len(),
    ensures
        from <= first_at(keys, key, from) <= keys.len(),
        first_at(keys, key, from) < keys.len() ==> keys[first_at(keys, key, from)] == key,
        forall|i: int| from <= i < first_at(keys, key, from) ==> keys[i] != key,
    decreases keys.len() - from,
{
    if from < keys.len() && keys[from] != key {
        lemma_first_at(keys, key, from + 1);
    }
}

/// An index that holds the key with none before it is what `first_at` returns.
pub proof fn lemma_first_at_is<K>(keys: Seq<K>, key: K, from: int, at: int)
    requires
        0 <= from <= at <= keys.len(),
        forall|i: int| from <= i < at ==> keys[i] != key,
        at < keys.len() ==> keys[at] == key,
    ensures
        first_at(keys, key, from) == at,
    decreases at - from,
{
    if from < at {
        lemma_first_at_is(keys, key, from + 1, at);
    }
}

/// Where a key is first found after one more key was put behind the others:
/// where it was found before, or else at the new place where the new key is
/// the one that is looked for.
pub proof fn lemma_first_at_push<K>(keys: Seq<K>, added: K, key: K)
    ensures
        first_at(keys.push(added), key, 0) == if first_at(keys, key, 0) < keys.len() {
            first_at(keys, key, 0)
        } else if key == added {
            keys.len() as int
        } else {
            keys.len() as int + 1
        },
{
    let after = keys.push(added);
    let found = first_at(keys, key, 0);
    lemma_first_at(keys, key, 0);
    if found < keys.len() {
        lemma_first_at_is(after, key, 0, found);
    } else if key == added {
        lemma_first_at_is(after, key, 0, keys.len() as int);
    } else {
        lemma_first_at_is(after, key, 0, keys.len() as int + 1);
    }
}

} // verus!
