//! A map kept as a list of keys and a list of values, place by place.
//!
//! The ledger keeps its tables as lists of entries with distinct keys. These
//! lemmas say what the usual changes of such a list do to the map that it
//! stands for.

use vstd::prelude::*;

verus! {

/// The map that takes each key to the value at the key's place.
pub open spec fn assoc_map<K, V>(keys: Seq<K>, values: Seq<V>) -> Map<K, V> {
    Map::new(|k: K| keys.contains(k), |k: K| values[keys.index_of(k)])
}

/// A key is found at its own place, and nowhere else.
pub proof fn lemma_assoc_at<K, V>(keys: Seq<K>, values: Seq<V>, i: int)
    requires
        keys.no_duplicates(),
        keys.len() == values.len(),
        0 <= i < keys.len(),
    ensures
        keys.index_of(keys[i]) == i,
        assoc_map(keys, values).contains_key(keys[i]),
        assoc_map(keys, values)[keys[i]] == values[i],
{
    assert(keys.contains(keys[i]));
    let at = keys.index_of(keys[i]);
    assert(0 <= at < keys.len() && keys[at] == keys[i]);
}

/// A new key at the end is an insertion.
pub proof fn lemma_assoc_push<K, V>(keys: Seq<K>, values: Seq<V>, key: K, value: V)
    requires
        keys.no_duplicates(),
        keys.len() == values.len(),
        !keys.contains(key),
    ensures
        keys.push(key).no_duplicates(),
        assoc_map(keys.push(key), values.push(value)) == assoc_map(keys, values).insert(
            key,
            value,
        ),
{
    let keys2 = keys.push(key);
    let values2 = values.push(value);
    assert forall|i: int, j: int| 0 <= i < keys2.len() && 0 <= j < keys2.len() && i != j implies keys2[i]
        != keys2[j] by {
        if i < keys.len() && j < keys.len() {
            assert(keys[i] != keys[j]);
        } else if i < keys.len() {
            assert(keys.contains(keys[i]));
        } else {
            assert(keys.contains(keys[j]));
        }
    }
    let before = assoc_map(keys, values).insert(key, value);
    let after = assoc_map(keys2, values2);
    assert forall|k: K| before.contains_key(k) <==> after.contains_key(k) by {
        if keys.contains(k) {
            let i = keys.index_of(k);
            assert(keys2[i] == k);
        }
        if k == key {
            assert(keys2[keys.len() as int] == k);
        }
        if keys2.contains(k) && k != key {
            let i = keys2.index_of(k);
            assert(keys[i] == k);
        }
    }
    assert forall|k: K| before.contains_key(k) implies before[k] == after[k] by {
        if k == key {
            lemma_assoc_at(keys2, values2, keys.len() as int);
        } else {
            let i = keys.index_of(k);
            assert(keys2[i] == k);
            lemma_assoc_at(keys2, values2, i);
        }
    }
    assert(before =~= after);
}

/// A new value at a key's place is an insertion under that key.
pub proof fn lemma_assoc_update<K, V>(keys: Seq<K>, values: Seq<V>, i: int, value: V)
    requires
        keys.no_duplicates(),
        keys.len() == values.len(),
        0 <= i < keys.len(),
    ensures
        assoc_map(keys, values.update(i, value)) == assoc_map(keys, values).insert(keys[i], value),
{
    let values2 = values.update(i, value);
    let before = assoc_map(keys, values).insert(keys[i], value);
    let after = assoc_map(keys, values2);
    assert(keys.contains(keys[i]));
    assert forall|k: K| before.contains_key(k) implies before[k] == after[k] by {
        let j = keys.index_of(k);
        lemma_assoc_at(keys, values, j);
        lemma_assoc_at(keys, values2, j);
    }
    assert(before =~= after);
}

/// Taking out a place takes out its key.
pub proof fn lemma_assoc_remove<K, V>(keys: Seq<K>, values: Seq<V>, i: int)
    requires
        keys.no_duplicates(),
        keys.len() == values.len(),
        0 <= i < keys.len(),
    ensures
        keys.remove(i).no_duplicates(),
        !keys.remove(i).contains(keys[i]),
        assoc_map(keys.remove(i), values.remove(i)) == assoc_map(keys, values).remove(keys[i]),
{
    let keys2 = keys.remove(i);
    let values2 = values.remove(i);
    assert forall|a: int, b: int| 0 <= a < keys2.len() && 0 <= b < keys2.len() && a != b implies keys2[a]
        != keys2[b] by {
        let a0 = if a < i { a } else { a + 1 };
        let b0 = if b < i { b } else { b + 1 };
        assert(keys2[a] == keys[a0] && keys2[b] == keys[b0]);
    }
    assert(!keys2.contains(keys[i])) by {
        if keys2.contains(keys[i]) {
            let a = keys2.index_of(keys[i]);
            let a0 = if a < i { a } else { a + 1 };
            assert(keys2[a] == keys[a0]);
        }
    }
    let before = assoc_map(keys, values).remove(keys[i]);
    let after = assoc_map(keys2, values2);
    assert forall|k: K| before.contains_key(k) <==> after.contains_key(k) by {
        if keys.contains(k) && k != keys[i] {
            let j = keys.index_of(k);
            let j2 = if j < i { j } else { j - 1 };
            assert(keys2[j2] == k);
        }
        if keys2.contains(k) {
            let a = keys2.index_of(k);
            let a0 = if a < i { a } else { a + 1 };
            assert(keys[a0] == k);
        }
    }
    assert forall|k: K| before.contains_key(k) implies before[k] == after[k] by {
        let j = keys.index_of(k);
        let j2 = if j < i { j } else { j - 1 };
        assert(keys2[j2] == k);
        lemma_assoc_at(keys, values, j);
        lemma_assoc_at(keys2, values2, j2);
    }
    assert(before =~= after);
}

/// The keys of the map are the keys of the list, each counted once.
pub proof fn lemma_assoc_keys<K, V>(keys: Seq<K>, values: Seq<V>)
    requires
        keys.no_duplicates(),
    ensures
        assoc_map(keys, values).dom() == keys.to_set(),
        assoc_map(keys, values).dom().finite(),
        assoc_map(keys, values).dom().len() == keys.len(),
{
    assert(assoc_map(keys, values).dom() =~= keys.to_set());
    vstd::seq_lib::seq_to_set_is_finite(keys);
    keys.unique_seq_to_set();
}

/// Two lists of one length stand for the same map if each key of the first
/// has the same value in the second.
pub proof fn lemma_assoc_equal<K, V>(
    keys1: Seq<K>,
    values1: Seq<V>,
    keys2: Seq<K>,
    values2: Seq<V>,
)
    requires
        keys1.no_duplicates(),
        keys2.no_duplicates(),
        keys1.len() == values1.len(),
        keys2.len() == values2.len(),
        keys1.len() == keys2.len(),
        forall|i: int|
            0 <= i < keys1.len() ==> keys2.contains(#[trigger] keys1[i]) && values2[keys2.index_of(
                keys1[i],
            )] == values1[i],
    ensures
        assoc_map(keys1, values1) == assoc_map(keys2, values2),
{
    lemma_assoc_keys(keys1, values1);
    lemma_assoc_keys(keys2, values2);
    let one = assoc_map(keys1, values1);
    let two = assoc_map(keys2, values2);
    assert(one.dom().subset_of(two.dom())) by {
        assert forall|k: K| one.dom().contains(k) implies two.dom().contains(k) by {
            let i = keys1.index_of(k);
            assert(keys2.contains(keys1[i]));
        }
    }
    vstd::set_lib::lemma_subset_equality(one.dom(), two.dom());
    assert forall|k: K| one.contains_key(k) implies one[k] == two[k] by {
        let i = keys1.index_of(k);
        assert(keys2.contains(keys1[i]));
    }
    assert(one =~= two);
}

} // verus!
