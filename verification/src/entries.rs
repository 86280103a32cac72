//! Maps held as two parallel sequences: sorted keys and what belongs to them.

use vstd::prelude::*;
use crate::keys::{lemma_split_means_absent, splits_at};

verus! {

/// The map that sends each key to the item at the key's index.
pub open spec fn entries_map<V>(keys: Seq<Seq<u8>>, items: Seq<V>) -> Map<Seq<u8>, V> {
    Map::new(|k: Seq<u8>| keys.contains(k), |k: Seq<u8>| items[keys.index_of(k)])
}

/// Where no key occurs twice, the key at an index is mapped to the item at
/// that index.
pub proof fn lemma_entry_at<V>(keys: Seq<Seq<u8>>, items: Seq<V>, i: int)
    requires
        keys.no_duplicates(),
        0 <= i < keys.len(),
    ensures
        keys.contains(keys[i]),
        keys.index_of(keys[i]) == i,
        entries_map(keys, items).dom().contains(keys[i]),
        entries_map(keys, items)[keys[i]] == items[i],
{
    assert(keys.contains(keys[i]));
    let j = keys.index_of(keys[i]);
    assert(0 <= j < keys.len() && keys[j] == keys[i]);
}

/// Replacing the item at an index replaces what the key there is mapped to.
pub proof fn lemma_entries_update<V>(keys: Seq<Seq<u8>>, items: Seq<V>, i: int, item: V)
    requires
        keys.no_duplicates(),
        keys.len() == items.len(),
        0 <= i < keys.len(),
    ensures
        entries_map(keys, items.update(i, item)) == entries_map(keys, items).insert(keys[i], item),
{
    let a = entries_map(keys, items.update(i, item));
    let b = entries_map(keys, items).insert(keys[i], item);
    lemma_entry_at(keys, items, i);
    assert forall|k: Seq<u8>| a.dom().contains(k) implies #[trigger] a[k] == b[k] by {
        let j = keys.index_of(k);
        lemma_entry_at(keys, items, j);
    }
    assert(a =~= b);
}

/// Inserting a key at its place, and an item with it, adds one entry.
pub proof fn lemma_entries_insert<V>(
    keys: Seq<Seq<u8>>,
    items: Seq<V>,
    i: int,
    key: Seq<u8>,
    item: V,
)
    requires
        keys.no_duplicates(),
        keys.len() == items.len(),
        splits_at(keys, key, i),
    ensures
        keys.insert(i, key).no_duplicates(),
        entries_map(keys.insert(i, key), items.insert(i, item)) == entries_map(keys, items).insert(
            key,
            item,
        ),
{
    let keys2 = keys.insert(i, key);
    let items2 = items.insert(i, item);
    lemma_split_means_absent(keys, key, i);
    assert forall|a: int, b: int| 0 <= a < keys2.len() && 0 <= b < keys2.len() && a != b implies keys2[a]
        != keys2[b] by {
        let a0 = if a < i { a } else { a - 1 };
        let b0 = if b < i { b } else { b - 1 };
        if a != i && b != i {
            assert(keys2[a] == keys[a0] && keys2[b] == keys[b0]);
        } else if a == i {
            assert(keys2[b] == keys[b0]);
            assert(keys.contains(keys[b0]));
        } else {
            assert(keys2[a] == keys[a0]);
            assert(keys.contains(keys[a0]));
        }
    }
    let m1 = entries_map(keys2, items2);
    let m2 = entries_map(keys, items).insert(key, item);
    assert forall|k: Seq<u8>| m1.dom().contains(k) == m2.dom().contains(k) by {
        if keys2.contains(k) {
            let j = choose|j: int| 0 <= j < keys2.len() && keys2[j] == k;
            if j < i {
                assert(keys[j] == k);
            } else if j > i {
                assert(keys[j - 1] == k);
            }
        }
        if keys.contains(k) {
            let j = choose|j: int| 0 <= j < keys.len() && keys[j] == k;
            if j < i {
                assert(keys2[j] == k);
            } else {
                assert(keys2[j + 1] == k);
            }
        }
        if k == key {
            assert(keys2[i] == k);
        }
    }
    assert forall|k: Seq<u8>| m1.dom().contains(k) implies #[trigger] m1[k] == m2[k] by {
        let j = keys2.index_of(k);
        lemma_entry_at(keys2, items2, j);
        if j < i {
            assert(keys[j] == k);
            lemma_entry_at(keys, items, j);
        } else if j > i {
            assert(keys[j - 1] == k);
            lemma_entry_at(keys, items, j - 1);
        }
    }
    assert(m1 =~= m2);
}

/// Removing the key at an index, and the item with it, removes one entry.
pub proof fn lemma_entries_remove<V>(keys: Seq<Seq<u8>>, items: Seq<V>, i: int)
    requires
        keys.no_duplicates(),
        keys.len() == items.len(),
        0 <= i < keys.len(),
    ensures
        keys.remove(i).no_duplicates(),
        entries_map(keys.remove(i), items.remove(i)) == entries_map(keys, items).remove(keys[i]),
{
    let keys2 = keys.remove(i);
    let items2 = items.remove(i);
    assert forall|a: int, b: int| 0 <= a < keys2.len() && 0 <= b < keys2.len() && a != b implies keys2[a]
        != keys2[b] by {
        let a0 = if a < i { a } else { a + 1 };
        let b0 = if b < i { b } else { b + 1 };
        assert(keys2[a] == keys[a0] && keys2[b] == keys[b0]);
    }
    let m1 = entries_map(keys2, items2);
    let m2 = entries_map(keys, items).remove(keys[i]);
    assert forall|k: Seq<u8>| m1.dom().contains(k) == m2.dom().contains(k) by {
        if keys2.contains(k) {
            let j = choose|j: int| 0 <= j < keys2.len() && keys2[j] == k;
            let j0 = if j < i { j } else { j + 1 };
            assert(keys[j0] == k);
        }
        if keys.contains(k) && k != keys[i] {
            let j = choose|j: int| 0 <= j < keys.len() && keys[j] == k;
            if j < i {
                assert(keys2[j] == k);
            } else {
                assert(keys2[j - 1] == k);
            }
        }
    }
    assert forall|k: Seq<u8>| m1.dom().contains(k) implies #[trigger] m1[k] == m2[k] by {
        let j = keys2.index_of(k);
        lemma_entry_at(keys2, items2, j);
        let j0 = if j < i { j } else { j + 1 };
        assert(keys[j0] == k);
        lemma_entry_at(keys, items, j0);
    }
    assert(m1 =~= m2);
}

} // verus!
