//! Houses the code that implements the transactional overlay storage.

use vstd::prelude::*;
use crate::bytes::{lex_lt, lemma_lex_asymmetric, lemma_lex_irreflexive};
use crate::entries::{
    entries_map, lemma_entries_insert, lemma_entries_remove, lemma_entries_update, lemma_entry_at,
};
use crate::keys::{
    find_key, key_views, lemma_increasing_no_duplicates, lemma_insert_keeps_order,
    lemma_insert_members, lemma_remove_keeps_order, lemma_split_means_absent,
    strictly_increasing,
};
use crate::model::{
    is_first_write, mark, optional_index, stack_fold_top, stack_write, visible, with_top_value,
    Overlay, Version,
};
use crate::preservation::{
    lemma_clear_wf, lemma_commit_wf, lemma_modify_wf, lemma_new_wf, lemma_rollback_wf,
    lemma_set_wf, lemma_start_wf, lemma_written_twice,
};
use crate::value::{value_view, OverlayedValue, StorageKey, StorageValue};

verus! {

/// The version stacks held by a vector of overlayed values, in the same order.
pub open spec fn stack_views(values: Seq<OverlayedValue>) -> Seq<Seq<Version>> {
    Seq::new(values.len(), |i: int| values[i]@)
}

/// The key sets held by the dirty-key vectors, in the same order.
pub open spec fn dirty_views(dirty: Seq<Vec<StorageKey>>) -> Seq<Set<Seq<u8>>> {
    Seq::new(dirty.len(), |i: int| key_views(dirty[i]@).to_set())
}

/// Every dirty-key vector is sorted.
pub open spec fn dirty_sorted(dirty: Seq<Vec<StorageKey>>) -> bool {
    forall|i: int| 0 <= i < dirty.len() ==> strictly_increasing(key_views(#[trigger] dirty[i]@))
}

/// The keys of a listing of changes, in the listing's order.
pub open spec fn change_keys(listing: Seq<(&StorageKey, &OverlayedValue)>) -> Seq<Seq<u8>> {
    Seq::new(listing.len(), |i: int| listing[i].0@)
}

/// The keys of a listing of committed changes, in the listing's order.
pub open spec fn drained_keys(listing: Seq<(StorageKey, Option<StorageValue>)>) -> Seq<Seq<u8>> {
    Seq::new(listing.len(), |i: int| listing[i].0@)
}

/// The keys whose flag is set, where flag `i` belongs to key `i`. A key
/// without a flag counts as not set.
pub open spec fn flagged_keys(keys: Seq<Seq<u8>>, flags: Seq<bool>) -> Set<Seq<u8>> {
    Set::new(
        |k: Seq<u8>| exists|i: int| 0 <= i < keys.len() && i < flags.len() && #[trigger] keys[i] == k && flags[i],
    )
}

/// Inserts a key into the dirty set of the innermost open transaction.
///
/// Returns true iff at least one transaction is open and this is the first
/// write to the key in the innermost one.
pub fn insert_dirty(set: &mut Vec<Vec<StorageKey>>, key: StorageKey) -> (r: bool)
    requires
        dirty_sorted(old(set)@),
    ensures
        dirty_sorted(final(set)@),
        r == is_first_write(dirty_views(old(set)@), key@),
        dirty_views(final(set)@) == mark(dirty_views(old(set)@), Set::empty().insert(key@)),
{
    let n = set.len();
    if n == 0 {
        assert(dirty_views(set@) =~= mark(dirty_views(old(set)@), Set::empty().insert(key@)));
        return false;
    }
    let ghost before = dirty_views(set@);
    let ghost held = key_views(set@[n - 1]@);
    assert(before.last() == held.to_set());
    match find_key(&set[n - 1], key.as_slice()) {
        Ok(i) => {
            proof {
                assert(held[i as int] == key@);
                assert(held.to_set().contains(key@));
                assert(before.last().union(Set::empty().insert(key@)) =~= before.last());
                assert(dirty_views(set@) =~= mark(before, Set::empty().insert(key@)));
            }
            false
        },
        Err(i) => {
            proof {
                lemma_split_means_absent(held, key@, i as int);
                lemma_insert_keeps_order(held, key@, i as int);
                lemma_insert_members(held, key@, i as int);
            }
            set[n - 1].insert(i, key);
            proof {
                assert(key_views(set@[n - 1]@) =~= held.insert(i as int, key@));
                assert(held.to_set().insert(key@) =~= before.last().union(Set::empty().insert(key@)));
                assert forall|d: int| 0 <= d < set@.len() implies strictly_increasing(
                    key_views(#[trigger] set@[d]@),
                ) by {
                    if d < n - 1 {
                        assert(set@[d] == old(set)@[d]);
                    }
                }
                assert forall|d: int| 0 <= d < set@.len() implies #[trigger] dirty_views(set@)[d]
                    == mark(before, Set::empty().insert(key@))[d] by {
                    if d < n - 1 {
                        assert(set@[d] == old(set)@[d]);
                    }
                }
                assert(dirty_views(set@) =~= mark(before, Set::empty().insert(key@)));
            }
            true
        },
    }
}

/// Holds a set of changes with the ability to modify them using nested transactions.
#[derive(Debug, Clone)]
pub struct OverlayedChangeSet {
    /// The keys that have pending changes, in lexicographic order.
    keys: Vec<StorageKey>,
    /// The changes that this overlay constitutes: at each index the versions
    /// of the value of the key at the same index.
    values: Vec<OverlayedValue>,
    /// Stores which keys are dirty per transaction. Needed in order to determine which
    /// values to merge into the parent transaction on commit. The length of this vector
    /// therefore determines how many nested transactions are currently open (depth).
    dirty_keys: Vec<Vec<StorageKey>>,
}

impl View for OverlayedChangeSet {
    type V = Overlay;

    closed spec fn view(&self) -> Overlay {
        Overlay {
            changes: entries_map(key_views(self.keys@), stack_views(self.values@)),
            dirty: dirty_views(self.dirty_keys@),
        }
    }
}

impl OverlayedChangeSet {
    /// The keys with pending changes in the order in which they are held.
    pub closed spec fn ordered_keys(&self) -> Seq<Seq<u8>> {
        key_views(self.keys@)
    }

    /// The overlayed value that is held for `key`.
    pub closed spec fn stored(&self, key: Seq<u8>) -> OverlayedValue {
        self.values@[key_views(self.keys@).index_of(key)]
    }

    /// The changeset is laid out as it should be: keys and dirty keys are
    /// sorted, every key has its value, every value is well formed, and the
    /// state meets the invariant of the overlay.
    pub closed spec fn wf(&self) -> bool {
        &&& self.keys@.len() == self.values@.len()
        &&& strictly_increasing(key_views(self.keys@))
        &&& forall|i: int| 0 <= i < self.values@.len() ==> (#[trigger] self.values@[i]).wf()
        &&& dirty_sorted(self.dirty_keys@)
        &&& self@.wf()
    }

    /// What holds of the entry at index `i` of a well-formed changeset.
    proof fn lemma_entry(&self, i: int)
        requires
            self.wf(),
            0 <= i < self.keys@.len(),
        ensures
            self@.has(self.keys@[i]@),
            self@.changes[self.keys@[i]@] == self.values@[i]@,
            self.stored(self.keys@[i]@) == self.values@[i],
            self.values@[i].wf(),
            self.ordered_keys()[i] == self.keys@[i]@,
    {
        let ks = key_views(self.keys@);
        lemma_increasing_no_duplicates(ks);
        lemma_entry_at(ks, stack_views(self.values@), i);
        lemma_entry_at(ks, self.values@, i);
    }

    /// A well-formed changeset shows a state that meets the invariant of the
    /// overlay, so that the laws of the model hold of it.
    pub proof fn lemma_model_wf(&self)
        requires
            self.wf(),
        ensures
            self@.wf(),
    {
    }

    /// The keys are held in strictly increasing order, they are exactly the
    /// keys with pending changes, and the value held for each of them is well
    /// formed and shows the key's version stack.
    pub proof fn lemma_ordered_keys(&self)
        requires
            self.wf(),
        ensures
            strictly_increasing(self.ordered_keys()),
            self.ordered_keys().to_set() == self@.changes.dom(),
            forall|k: Seq<u8>| #[trigger]
                self@.has(k) ==> self.stored(k).wf() && self.stored(k)@ == self@.changes[k],
    {
        let ks = key_views(self.keys@);
        assert(ks.to_set() =~= self@.changes.dom());
        assert forall|k: Seq<u8>| #[trigger] self@.has(k) implies self.stored(k).wf() && self.stored(
            k,
        )@ == self@.changes[k] by {
            let i = ks.index_of(k);
            assert(ks[i] == k);
            self.lemma_entry(i);
        }
    }

    /// Create a new changeset with the specified transaction depth.
    pub fn with_depth(depth: usize) -> (r: Self)
        ensures
            r.wf(),
            r@ == Overlay::new_at_depth(depth as nat),
    {
        let mut dirty_keys: Vec<Vec<StorageKey>> = Vec::new();
        let mut i: usize = 0;
        while i < depth
            invariant
                0 <= i <= depth,
                dirty_keys@.len() == i,
                forall|j: int| 0 <= j < i ==> (#[trigger] dirty_keys@[j])@.len() == 0,
            decreases depth - i,
        {
            dirty_keys.push(Vec::new());
            i += 1;
        }
        let r = OverlayedChangeSet { keys: Vec::new(), values: Vec::new(), dirty_keys };
        proof {
            let fresh = Overlay::new_at_depth(depth as nat);
            assert(r@.changes =~= fresh.changes);
            assert forall|j: int| 0 <= j < depth implies #[trigger] r@.dirty[j] == fresh.dirty[j] by {
                assert(dirty_keys@[j]@.len() == 0);
                assert(key_views(dirty_keys@[j]@).to_set() =~= Set::<Seq<u8>>::empty());
            }
            assert(r@.dirty =~= fresh.dirty);
            lemma_new_wf(depth as nat);
        }
        r
    }

    /// True if no changes at all are contained in the change set.
    pub fn is_empty(&self) -> (r: bool)
        ensures
            r == (self@.changes == Map::<Seq<u8>, Seq<Version>>::empty()),
    {
        let r = self.keys.len() == 0;
        proof {
            let ks = key_views(self.keys@);
            if r {
                assert(self@.changes =~= Map::<Seq<u8>, Seq<Version>>::empty());
            } else {
                assert(ks[0] == self.keys@[0]@);
                assert(ks.contains(ks[0]));
                assert(self@.changes.dom().contains(ks[0]));
            }
        }
        r
    }

    /// Get an optional reference to the value stored for the specified key.
    pub fn get(&self, key: &[u8]) -> (r: Option<&OverlayedValue>)
        requires
            self.wf(),
        ensures
            match r {
                Some(found) => {
                    &&& self@.has(key@)
                    &&& *found == self.stored(key@)
                    &&& found@ == self@.changes[key@]
                    &&& found.wf()
                },
                None => !self@.has(key@),
            },
    {
        match find_key(&self.keys, key) {
            Ok(i) => {
                proof {
                    self.lemma_entry(i as int);
                }
                Some(&self.values[i])
            },
            Err(i) => {
                proof {
                    lemma_split_means_absent(key_views(self.keys@), key@, i as int);
                }
                None
            },
        }
    }

    /// Set a new value for the specified key.
    ///
    /// Can be rolled back or committed when called inside a transaction.
    pub fn set(&mut self, key: StorageKey, value: Option<StorageValue>, at_extrinsic: Option<u32>)
        requires
            old(self).wf(),
        ensures
            final(self).wf(),
            final(self)@ == old(self)@.set(key@, value_view(value), at_extrinsic),
    {
        let ghost ks = key_views(self.keys@);
        let ghost stacks = stack_views(self.values@);
        let ghost target = old(self)@.set(key@, value_view(value), at_extrinsic);
        proof {
            lemma_increasing_no_duplicates(ks);
            lemma_set_wf(old(self)@, key@, value_view(value), at_extrinsic);
        }
        match find_key(&self.keys, key.as_slice()) {
            Ok(i) => {
                proof {
                    self.lemma_entry(i as int);
                }
                let first = insert_dirty(&mut self.dirty_keys, key);
                self.values[i].set(value, first, at_extrinsic);
                proof {
                    assert(stack_views(self.values@) =~= stacks.update(i as int, self.values@[i as int]@));
                    lemma_entries_update(ks, stacks, i as int, self.values@[i as int]@);
                    assert(self@.changes == target.changes);
                    assert(self@.dirty == target.dirty);
                    assert forall|j: int| 0 <= j < self.values@.len() implies (#[trigger] self.values@[j]).wf() by {
                        if j != i {
                            assert(self.values@[j] == old(self).values@[j]);
                        }
                    }
                }
            },
            Err(i) => {
                proof {
                    lemma_split_means_absent(ks, key@, i as int);
                    lemma_insert_keeps_order(ks, key@, i as int);
                }
                let first = insert_dirty(&mut self.dirty_keys, key.clone());
                let mut overlayed = OverlayedValue::empty();
                overlayed.set(value, first, at_extrinsic);
                self.keys.insert(i, key);
                self.values.insert(i, overlayed);
                proof {
                    assert(key_views(self.keys@) =~= ks.insert(i as int, key@));
                    assert(stack_views(self.values@) =~= stacks.insert(i as int, overlayed@));
                    lemma_entries_insert(ks, stacks, i as int, key@, overlayed@);
                    assert(self@.changes == target.changes);
                    assert(self@.dirty == target.dirty);
                    assert forall|j: int| 0 <= j < self.values@.len() implies (#[trigger] self.values@[j]).wf() by {
                        if j < i {
                            assert(self.values@[j] == old(self).values@[j]);
                        } else if j > i {
                            assert(self.values@[j] == old(self).values@[j - 1]);
                        }
                    }
                }
            },
        }
    }

    /// Returns the current nesting depth of the transaction stack.
    ///
    /// A value of zero means that no transaction is open and changes are committed on write.
    pub fn transaction_depth(&self) -> (r: usize)
        ensures
            r == self@.depth(),
    {
        self.dirty_keys.len()
    }

    /// Start a new nested transaction.
    ///
    /// This allows to either commit or roll back all changes that were made while this
    /// transaction was open. Any transaction must be closed by one of the aforementioned
    /// functions before this overlay can be converted into storage changes.
    ///
    /// Changes made without any open transaction are committed immediately.
    pub fn start_transaction(&mut self)
        requires
            old(self).wf(),
        ensures
            final(self).wf(),
            final(self)@ == old(self)@.start_transaction(),
    {
        self.dirty_keys.push(Vec::new());
        proof {
            let n = self.dirty_keys@.len() - 1;
            assert(key_views(self.dirty_keys@[n]@).to_set() =~= Set::<Seq<u8>>::empty());
            assert(self@.dirty =~= old(self)@.dirty.push(Set::empty()));
            assert(self@.changes == old(self)@.changes);
            lemma_start_wf(old(self)@);
        }
    }
}

impl Default for OverlayedChangeSet {
    /// The changeset without changes and without open transactions.
    fn default() -> (r: Self)
        ensures
            r.wf(),
            r@ == Overlay::new_at_depth(0),
    {
        OverlayedChangeSet::with_depth(0)
    }
}

impl OverlayedChangeSet {
    /// Rollback the last transaction started by `start_transaction`.
    ///
    /// Any changes made during that transaction are discarded.
    pub fn rollback_transaction(&mut self)
        requires
            old(self).wf(),
            old(self)@.depth() >= 1,
        ensures
            final(self).wf(),
            final(self)@ == old(self)@.rollback_transaction(),
    {
        self.close_transaction(true);
    }

    /// Commit the last transaction started by `start_transaction`.
    ///
    /// Any changes made during that transaction are committed.
    pub fn commit_transaction(&mut self)
        requires
            old(self).wf(),
            old(self)@.depth() >= 1,
        ensures
            final(self).wf(),
            final(self)@ == old(self)@.commit_transaction(),
    {
        self.close_transaction(false);
    }

    /// Closes the innermost transaction: drops its dirty set and settles
    /// every key of that set, by rolling it back or by committing it.
    pub fn close_transaction(&mut self, rollback: bool)
        requires
            old(self).wf(),
            old(self)@.depth() >= 1,
        ensures
            final(self).wf(),
            final(self)@ == if rollback {
                old(self)@.rollback_transaction()
            } else {
                old(self)@.commit_transaction()
            },
    {
        let ghost before = self@;
        let ghost closing_set = before.dirty.last();
        let ghost rest = before.dirty.drop_last();
        let mut closing = self.dirty_keys.pop().unwrap();
        let ghost mut done: Set<Seq<u8>> = Set::empty();
        proof {
            assert(key_views(closing@).to_set() == closing_set);
            assert(dirty_views(self.dirty_keys@) =~= rest);
            assert(before.rollback_keys(done).changes =~= before.changes);
            assert(before.commit_keys(done).changes =~= before.changes);
            if rest.len() > 0 {
                assert(rest.last().union(done) =~= rest.last());
            }
            assert(mark(rest, done) =~= rest);
            assert forall|j: int| 0 <= j < closing@.len() implies closing_set.contains(
                #[trigger] closing@[j]@,
            ) by {
                assert(key_views(closing@)[j] == closing@[j]@);
            }
        }
        while closing.len() > 0
            invariant
                before.wf(),
                before.dirty.len() >= 1,
                closing_set == before.dirty.last(),
                rest == before.dirty.drop_last(),
                self.keys@.len() == self.values@.len(),
                strictly_increasing(key_views(self.keys@)),
                forall|i: int| 0 <= i < self.values@.len() ==> (#[trigger] self.values@[i]).wf(),
                dirty_sorted(self.dirty_keys@),
                strictly_increasing(key_views(closing@)),
                forall|k: Seq<u8>| done.contains(k) ==> closing_set.contains(k),
                forall|k: Seq<u8>|
                    closing_set.contains(k) ==> done.contains(k) || key_views(closing@).contains(k),
                forall|j: int|
                    0 <= j < closing@.len() ==> closing_set.contains(#[trigger] closing@[j]@)
                        && !done.contains(closing@[j]@),
                self@ == if rollback {
                    before.rollback_keys(done)
                } else {
                    before.commit_keys(done)
                },
            decreases closing.len(),
        {
            let ghost cur = self@;
            let ghost ks = key_views(self.keys@);
            let ghost stacks = stack_views(self.values@);
            let ghost left = key_views(closing@);
            let ghost last_index = closing@.len() - 1;
            let ghost held = closing@;
            let key = closing.pop().unwrap();
            let ghost k = key@;
            proof {
                assert(key == held[last_index]);
                assert(left[last_index] == k);
                assert(closing_set.contains(k) && !done.contains(k));
                assert(before.dirty[before.dirty.len() - 1].contains(k));
                assert(before.has(k));
                assert(cur.has(k));
                assert(cur.changes[k] == before.changes[k]);
                lemma_increasing_no_duplicates(ks);
                lemma_increasing_no_duplicates(left);
                assert(key_views(closing@) =~= left.drop_last());
                assert forall|j: int| 0 <= j < closing@.len() implies closing@[j]@ != k by {
                    assert(left[j] == closing@[j]@);
                }
            }
            // A dirty key has pending changes, so the search finds it.
            let i = match find_key(&self.keys, key.as_slice()) {
                Ok(i) => i,
                Err(i) => {
                    proof {
                        lemma_split_means_absent(ks, k, i as int);
                    }
                    i
                },
            };
            proof {
                lemma_entry_at(ks, stacks, i as int);
                assert(stacks[i as int] == before.changes[k]);
                assert(ks[i as int] == k);
            }
            let ghost done_next = done.insert(k);
            if rollback {
                self.values[i].pop_transaction();
                if self.values[i].version_count() == 0 {
                    self.keys.remove(i);
                    self.values.remove(i);
                    proof {
                        lemma_entries_remove(ks, stacks, i as int);
                        lemma_remove_keeps_order(ks, i as int);
                        assert(key_views(self.keys@) =~= ks.remove(i as int));
                        assert(stack_views(self.values@) =~= stacks.remove(i as int));
                        assert(self@.changes =~= before.rollback_keys(done_next).changes);
                    }
                } else {
                    proof {
                        assert(stack_views(self.values@) =~= stacks.update(
                            i as int,
                            before.changes[k].drop_last(),
                        ));
                        lemma_entries_update(ks, stacks, i as int, before.changes[k].drop_last());
                        assert(self@.changes =~= before.rollback_keys(done_next).changes);
                    }
                }
            } else {
                proof {
                    assert(dirty_views(self.dirty_keys@) == mark(rest, done));
                    assert(dirty_views(self.dirty_keys@).len() == self.dirty_keys@.len());
                    assert(mark(rest, done).len() == rest.len());
                    assert(stacks[i as int] == self.values@[i as int]@);
                    assert(before.changes[k].len() >= 1);
                    if rest.len() > 0 {
                        assert(mark(rest, done).last() == rest.last().union(done));
                        assert(is_first_write(mark(rest, done), k) == !rest.last().contains(k));
                    }
                }
                let no_predecessor = if self.dirty_keys.len() > 0 {
                    insert_dirty(&mut self.dirty_keys, key)
                } else {
                    self.values[i].version_count() == 1
                };
                proof {
                    if rest.len() > 0 {
                        assert(rest.last() == before.dirty[before.dirty.len() - 2]);
                        assert(rest.last().union(done).union(Set::empty().insert(k))
                            =~= rest.last().union(done_next));
                        if before.has_predecessor(k) {
                            lemma_written_twice(before, k);
                        }
                    }
                    assert(no_predecessor == !before.has_predecessor(k));
                    assert(dirty_views(self.dirty_keys@) =~= mark(rest, done_next));
                }
                if !no_predecessor {
                    self.values[i].fold_top();
                    proof {
                        assert(stack_views(self.values@) =~= stacks.update(
                            i as int,
                            stack_fold_top(before.changes[k]),
                        ));
                        lemma_entries_update(ks, stacks, i as int, stack_fold_top(before.changes[k]));
                    }
                }
                proof {
                    assert(self@.changes =~= before.commit_keys(done_next).changes);
                }
            }
            proof {
                let done_before = done;
                done = done_next;
                assert forall|q: Seq<u8>| closing_set.contains(q) implies done.contains(q)
                    || key_views(closing@).contains(q) by {
                    if q != k && !done_before.contains(q) {
                        assert(left.contains(q));
                        let j = choose|j: int| 0 <= j < left.len() && left[j] == q;
                        assert(key_views(closing@)[j] == q);
                    }
                }
            }
        }
        proof {
            assert(done =~= closing_set);
            if rollback {
                lemma_rollback_wf(before);
            } else {
                lemma_commit_wf(before);
            }
        }
    }
}

impl OverlayedChangeSet {
    /// Get a list of all changes as seen by current transaction, in the
    /// lexicographic order of their keys.
    pub fn changes(&self) -> (r: Vec<(&StorageKey, &OverlayedValue)>)
        requires
            self.wf(),
        ensures
            change_keys(r@) == self.ordered_keys(),
            strictly_increasing(change_keys(r@)),
            change_keys(r@).to_set() == self@.changes.dom(),
            forall|i: int|
                0 <= i < r@.len() ==> {
                    &&& *(#[trigger] r@[i]).1 == self.stored(r@[i].0@)
                    &&& r@[i].1@ == self@.changes[r@[i].0@]
                    &&& r@[i].1.wf()
                },
    {
        let mut listing: Vec<(&StorageKey, &OverlayedValue)> = Vec::new();
        let mut i: usize = 0;
        while i < self.keys.len()
            invariant
                self.wf(),
                0 <= i <= self.keys@.len(),
                listing@.len() == i,
                forall|j: int|
                    0 <= j < i ==> *(#[trigger] listing@[j]).0 == self.keys@[j] && *listing@[j].1
                        == self.values@[j],
            decreases self.keys@.len() - i,
        {
            listing.push((&self.keys[i], &self.values[i]));
            i += 1;
        }
        proof {
            assert(change_keys(listing@) =~= self.ordered_keys());
            self.lemma_ordered_keys();
            assert forall|j: int| 0 <= j < listing@.len() implies {
                &&& *(#[trigger] listing@[j]).1 == self.stored(listing@[j].0@)
                &&& listing@[j].1@ == self@.changes[listing@[j].0@]
                &&& listing@[j].1.wf()
            } by {
                self.lemma_entry(j);
            }
        }
        listing
    }

    /// Get the change that is next to the supplied key: the one with the
    /// least key that comes strictly after `key`.
    pub fn next_change(&self, key: &[u8]) -> (r: Option<(&[u8], &OverlayedValue)>)
        requires
            self.wf(),
        ensures
            match r {
                Some((next, found)) => {
                    &&& self@.has(next@)
                    &&& lex_lt(key@, next@)
                    &&& forall|other: Seq<u8>|
                        self@.has(other) && lex_lt(key@, other) ==> other == next@ || lex_lt(
                            next@,
                            other,
                        )
                    &&& *found == self.stored(next@)
                    &&& found@ == self@.changes[next@]
                    &&& found.wf()
                },
                None => forall|other: Seq<u8>| self@.has(other) ==> !lex_lt(key@, other),
            },
    {
        let ghost ks = key_views(self.keys@);
        let at = match find_key(&self.keys, key) {
            Ok(i) => i + 1,
            Err(i) => i,
        };
        proof {
            assert forall|j: int| 0 <= j < at implies !lex_lt(key@, #[trigger] ks[j]) by {
                if ks[j] == key@ {
                    lemma_lex_irreflexive(key@);
                } else {
                    if at >= 1 && ks[at - 1] == key@ {
                        assert(lex_lt(ks[j], ks[at - 1]));
                    }
                    lemma_lex_asymmetric(ks[j], key@);
                }
            }
            assert forall|j: int| at <= j < ks.len() implies lex_lt(key@, #[trigger] ks[j]) by {
                if at >= 1 && ks[at - 1] == key@ {
                    assert(lex_lt(ks[at - 1], ks[j]));
                }
            }
        }
        if at < self.keys.len() {
            proof {
                self.lemma_entry(at as int);
                assert forall|other: Seq<u8>| self@.has(other) && lex_lt(key@, other) implies other
                    == ks[at as int] || lex_lt(ks[at as int], other) by {
                    let j = ks.index_of(other);
                    assert(ks[j] == other);
                    if j < at {
                        assert(!lex_lt(key@, ks[j]));
                    } else if j > at {
                        assert(lex_lt(ks[at as int], ks[j]));
                    }
                }
            }
            Some((self.keys[at].as_slice(), &self.values[at]))
        } else {
            proof {
                assert forall|other: Seq<u8>| self@.has(other) implies !lex_lt(key@, other) by {
                    let j = ks.index_of(other);
                    assert(ks[j] == other);
                }
            }
            None
        }
    }

    /// Consume this changeset and return all committed changes: for every key
    /// the visible value, in the lexicographic order of the keys.
    ///
    /// There must be no open transaction: `transaction_depth() == 0`.
    pub fn drain_commited(self) -> (r: Vec<(StorageKey, Option<StorageValue>)>)
        requires
            self.wf(),
            self@.depth() == 0,
        ensures
            drained_keys(r@) == self.ordered_keys(),
            strictly_increasing(drained_keys(r@)),
            drained_keys(r@).to_set() == self@.changes.dom(),
            forall|i: int|
                0 <= i < r@.len() ==> value_view((#[trigger] r@[i]).1) == self@.committed()[r@[i].0@],
    {
        let ghost ks = key_views(self.keys@);
        let ghost stacks = stack_views(self.values@);
        let ghost n = self.keys@.len();
        proof {
            self.lemma_ordered_keys();
            assert forall|j: int| 0 <= j < n implies self@.committed()[#[trigger] ks[j]] == visible(
                stacks[j],
            ) by {
                self.lemma_entry(j);
            }
        }
        let mut keys = self.keys;
        let mut values = self.values;
        let mut reversed: Vec<(StorageKey, Option<StorageValue>)> = Vec::new();
        while keys.len() > 0
            invariant
                ks.len() == n,
                stacks.len() == n,
                keys@.len() == values@.len(),
                keys@.len() + reversed@.len() == n,
                key_views(keys@) == ks.take(keys@.len() as int),
                stack_views(values@) == stacks.take(keys@.len() as int),
                forall|j: int| 0 <= j < values@.len() ==> (#[trigger] values@[j]).wf(),
                forall|j: int|
                    0 <= j < reversed@.len() ==> (#[trigger] reversed@[j]).0@ == ks[n - 1 - j]
                        && value_view(reversed@[j].1) == visible(stacks[n - 1 - j]),
            decreases keys@.len(),
        {
            let ghost m = keys@.len() - 1;
            let ghost held_keys = keys@;
            let ghost held_values = values@;
            let key = keys.pop().unwrap();
            let mut overlayed = values.pop().unwrap();
            proof {
                assert(key_views(held_keys)[m] == key@);
                assert(stack_views(held_values)[m] == overlayed@);
                assert(overlayed.wf());
                assert forall|j: int| 0 <= j < m implies key_views(keys@)[j] == ks[j] by {
                    assert(key_views(held_keys)[j] == held_keys[j]@);
                }
                assert forall|j: int| 0 <= j < m implies stack_views(values@)[j] == stacks[j] by {
                    assert(stack_views(held_values)[j] == held_values[j]@);
                }
                assert(key_views(keys@) =~= ks.take(keys@.len() as int));
                assert(stack_views(values@) =~= stacks.take(keys@.len() as int));
            }
            let value = overlayed.pop_transaction().into_value();
            reversed.push((key, value));
        }
        let mut drained: Vec<(StorageKey, Option<StorageValue>)> = Vec::new();
        while reversed.len() > 0
            invariant
                ks.len() == n,
                stacks.len() == n,
                drained@.len() + reversed@.len() == n,
                forall|j: int|
                    0 <= j < reversed@.len() ==> (#[trigger] reversed@[j]).0@ == ks[n - 1 - j]
                        && value_view(reversed@[j].1) == visible(stacks[n - 1 - j]),
                forall|j: int|
                    0 <= j < drained@.len() ==> (#[trigger] drained@[j]).0@ == ks[j] && value_view(
                        drained@[j].1,
                    ) == visible(stacks[j]),
            decreases reversed@.len(),
        {
            let entry = reversed.pop().unwrap();
            drained.push(entry);
        }
        proof {
            assert(drained_keys(drained@) =~= ks);
        }
        drained
    }
}

impl OverlayedChangeSet {
    /// Get a mutable reference for a value, where `init` is the value that a
    /// key without pending changes starts out with.
    ///
    /// Can be rolled back or committed when called inside a transaction.
    #[must_use]
    pub fn modify_or_init(
        &mut self,
        key: StorageKey,
        init: StorageValue,
        at_extrinsic: Option<u32>,
    ) -> (r: &mut Option<StorageValue>)
        requires
            old(self).wf(),
        ensures
            value_view(*r) == visible(old(self)@.touched_stack(key@, init@, at_extrinsic)),
            final(self)@ == old(self)@.modify(key@, init@, at_extrinsic, value_view(*final(r))),
            final(self).wf(),
    {
        let ghost before = self@;
        let ghost k = key@;
        let ghost ks0 = key_views(self.keys@);
        let ghost stacks0 = stack_views(self.values@);
        proof {
            lemma_increasing_no_duplicates(ks0);
        }
        let i = match find_key(&self.keys, key.as_slice()) {
            Ok(i) => {
                proof {
                    self.lemma_entry(i as int);
                }
                i
            },
            Err(i) => {
                let mut overlayed = OverlayedValue::empty();
                overlayed.set(Some(init), false, at_extrinsic);
                proof {
                    lemma_split_means_absent(ks0, k, i as int);
                    lemma_insert_keeps_order(ks0, k, i as int);
                    lemma_entries_insert(ks0, stacks0, i as int, k, overlayed@);
                    assert(Set::<u32>::empty().union(optional_index(at_extrinsic))
                        =~= optional_index(at_extrinsic));
                    assert(overlayed@ =~= Seq::<Version>::empty().push(
                        Version { value: Some(init@), extrinsics: optional_index(at_extrinsic) },
                    ));
                }
                self.keys.insert(i, key.clone());
                self.values.insert(i, overlayed);
                proof {
                    assert(key_views(self.keys@) =~= ks0.insert(i as int, k));
                    assert(stack_views(self.values@) =~= stacks0.insert(i as int, overlayed@));
                }
                i
            },
        };
        let ghost ks = key_views(self.keys@);
        let ghost stacks1 = stack_views(self.values@);
        let ghost present = stacks1[i as int];
        proof {
            lemma_increasing_no_duplicates(ks);
            assert(ks[i as int] == k);
            assert forall|j: int| 0 <= j < self.values@.len() implies (#[trigger] self.values@[j]).wf() by {
                if before.has(k) {
                } else if j < i {
                    assert(self.values@[j] == old(self).values@[j]);
                } else if j > i {
                    assert(self.values@[j] == old(self).values@[j - 1]);
                }
            }
        }
        if insert_dirty(&mut self.dirty_keys, key) {
            let current = match self.values[i].value() {
                Some(bytes) => Some(bytes.clone()),
                None => None,
            };
            self.values[i].set(current, true, at_extrinsic);
        }
        let ghost touched = before.touched_stack(k, init@, at_extrinsic);
        let ghost stacks2 = stack_views(self.values@);
        proof {
            assert(stacks2 =~= stacks1.update(i as int, touched));
            assert(self.values@[i as int]@ == touched);
            assert forall|j: int| 0 <= j < self.values@.len() implies (#[trigger] self.values@[j]).wf() by {
            }
        }
        let ghost values2 = self.values@;
        let r = self.values[i].value_mut();
        proof {
            let written = value_view(*final(r));
            let settled = with_top_value(touched, written);
            let last = after_borrow(self.values);
            assert(last@ =~= values2.update(i as int, last@[i as int]));
            assert(last@[i as int]@ == settled);
            assert(stack_views(last@) =~= stacks2.update(i as int, settled));
            lemma_entries_update(ks, stacks2, i as int, settled);
            if before.has(k) {
                lemma_entries_update(ks, stacks0, i as int, touched);
                lemma_entries_update(ks, stacks0, i as int, settled);
                assert(stacks2.update(i as int, settled) =~= stacks0.update(i as int, settled));
            } else {
                assert(stacks2.update(i as int, settled) =~= stacks0.insert(i as int, settled));
                lemma_entries_insert(ks0, stacks0, i as int, k, settled);
            }
            lemma_modify_wf(before, k, init@, at_extrinsic, written);
            assert forall|j: int| 0 <= j < last@.len() implies (#[trigger] last@[j]).wf() by {
                if j != i {
                    assert(last@[j] == values2[j]);
                }
            }
        }
        r
    }
}

impl OverlayedChangeSet {
    /// Get a mutable reference for a value. A key without pending changes
    /// starts out with what `init` returns; `init` is called for such a key
    /// only.
    ///
    /// Can be rolled back or committed when called inside a transaction.
    #[must_use]
    pub fn modify<F: Fn() -> StorageValue>(
        &mut self,
        key: StorageKey,
        init: F,
        at_extrinsic: Option<u32>,
    ) -> (r: &mut Option<StorageValue>)
        requires
            old(self).wf(),
            !old(self)@.has(key@) ==> init.requires(()),
        ensures
            final(self).wf(),
            exists|initial: StorageValue|
                {
                    &&& old(self)@.has(key@) || init.ensures((), initial)
                    &&& value_view(*r) == visible(
                        #[trigger] old(self)@.touched_stack(key@, initial@, at_extrinsic),
                    )
                    &&& final(self)@ == old(self)@.modify(
                        key@,
                        initial@,
                        at_extrinsic,
                        value_view(*final(r)),
                    )
                },
    {
        let initial = if self.get(key.as_slice()).is_some() {
            Vec::new()
        } else {
            init()
        };
        let ghost made = initial;
        let r = self.modify_or_init(key, initial, at_extrinsic);
        proof {
            assert(visible(old(self)@.touched_stack(key@, made@, at_extrinsic)) == value_view(*r));
        }
        r
    }

    /// Set to deleted the value of every key whose flag is set, where flag
    /// `i` belongs to the key at index `i` of the lexicographic order. Keys
    /// without pending changes are not touched.
    ///
    /// Can be rolled back or committed when called inside a transaction.
    pub fn clear_flagged(&mut self, flags: &Vec<bool>, at_extrinsic: Option<u32>)
        requires
            old(self).wf(),
        ensures
            final(self).wf(),
            final(self).ordered_keys() == old(self).ordered_keys(),
            final(self)@ == old(self)@.clear(
                flagged_keys(old(self).ordered_keys(), flags@),
                at_extrinsic,
            ),
    {
        let ghost before = self@;
        let ghost ks = key_views(self.keys@);
        let ghost dom = before.changes.dom();
        let mut i: usize = 0;
        proof {
            self.lemma_ordered_keys();
            lemma_increasing_no_duplicates(ks);
            let none = flagged_keys(ks.take(0), flags@);
            assert(none =~= Set::<Seq<u8>>::empty());
            assert(before.clear(none, at_extrinsic).changes =~= before.changes);
            if before.dirty.len() > 0 {
                assert(before.dirty.last().union(none.intersect(dom)) =~= before.dirty.last());
            }
            assert(before.clear(none, at_extrinsic).dirty =~= before.dirty);
        }
        while i < self.keys.len()
            invariant
                before.wf(),
                dom == before.changes.dom(),
                ks.to_set() == dom,
                ks.no_duplicates(),
                0 <= i <= self.keys@.len(),
                key_views(self.keys@) == ks,
                self.keys@.len() == self.values@.len(),
                strictly_increasing(ks),
                forall|j: int| 0 <= j < self.values@.len() ==> (#[trigger] self.values@[j]).wf(),
                dirty_sorted(self.dirty_keys@),
                self@ == before.clear(flagged_keys(ks.take(i as int), flags@), at_extrinsic),
            decreases self.keys@.len() - i,
        {
            let ghost hit = flagged_keys(ks.take(i as int), flags@);
            let ghost hit_next = flagged_keys(ks.take(i + 1), flags@);
            let ghost cur = self@;
            let ghost stacks = stack_views(self.values@);
            let ghost k = ks[i as int];
            proof {
                assert(ks.contains(k));
                assert(before.has(k));
                assert(!hit.contains(k)) by {
                    if hit.contains(k) {
                        let j = choose|j: int|
                            0 <= j < ks.take(i as int).len() && j < flags@.len() && #[trigger] ks.take(
                                i as int,
                            )[j] == k && flags@[j];
                        assert(ks[j] == ks[i as int]);
                    }
                }
                assert forall|q: Seq<u8>| hit_next.contains(q) == (hit.contains(q) || (q == k && i
                    < flags@.len() && flags@[i as int])) by {
                    if hit_next.contains(q) {
                        let j = choose|j: int|
                            0 <= j < ks.take(i + 1).len() && j < flags@.len() && #[trigger] ks.take(
                                i + 1,
                            )[j] == q && flags@[j];
                        if j < i {
                            assert(ks.take(i as int)[j] == q);
                        }
                    }
                    if hit.contains(q) {
                        let j = choose|j: int|
                            0 <= j < ks.take(i as int).len() && j < flags@.len() && #[trigger] ks.take(
                                i as int,
                            )[j] == q && flags@[j];
                        assert(ks.take(i + 1)[j] == q);
                    }
                    if q == k && i < flags@.len() && flags@[i as int] {
                        assert(ks.take(i + 1)[i as int] == q);
                    }
                }
                lemma_entry_at(ks, stacks, i as int);
                assert(stacks[i as int] == before.changes[k]);
            }
            if i < flags.len() && flags[i] {
                let first = insert_dirty(&mut self.dirty_keys, self.keys[i].clone());
                self.values[i].set(None, first, at_extrinsic);
                proof {
                    assert(hit_next =~= hit.insert(k));
                    if before.dirty.len() > 0 {
                        assert(before.dirty.last().union(hit.intersect(dom)).union(
                            Set::empty().insert(k),
                        ) =~= before.dirty.last().union(hit_next.intersect(dom)));
                    }
                    assert(first == before.first_write(k));
                    let written = stack_write(before.changes[k], None, first, at_extrinsic);
                    assert(stack_views(self.values@) =~= stacks.update(i as int, written));
                    lemma_entries_update(ks, stacks, i as int, written);
                    assert(self@.changes =~= before.clear(hit_next, at_extrinsic).changes);
                    assert(self@.dirty =~= before.clear(hit_next, at_extrinsic).dirty);
                }
            } else {
                proof {
                    assert(hit_next =~= hit);
                }
            }
            i += 1;
        }
        proof {
            assert(ks.take(i as int) =~= ks);
            lemma_clear_wf(before, flagged_keys(ks, flags@), at_extrinsic);
        }
    }

    /// Set all values to deleted which are matched by the predicate.
    ///
    /// Only keys with pending changes are offered to the predicate; deleting
    /// a key that lives in the backing store alone takes a `set` of `None`.
    ///
    /// Can be rolled back or committed when called inside a transaction.
    pub fn clear<F: Fn(&[u8], &OverlayedValue) -> bool>(
        &mut self,
        predicate: F,
        at_extrinsic: Option<u32>,
    )
        requires
            old(self).wf(),
            forall|k: &[u8]|
                old(self)@.has(k@) ==> #[trigger] predicate.requires((k, &old(self).stored(k@))),
        ensures
            final(self).wf(),
            final(self).ordered_keys() == old(self).ordered_keys(),
            exists|hit: Set<Seq<u8>>|
                {
                    &&& forall|k: &[u8]|
                        old(self)@.has(k@) ==> #[trigger] predicate.ensures(
                            (k, &old(self).stored(k@)),
                            hit.contains(k@),
                        )
                    &&& final(self)@ == #[trigger] old(self)@.clear(hit, at_extrinsic)
                },
    {
        let ghost ks = key_views(self.keys@);
        let mut flags: Vec<bool> = Vec::new();
        let mut i: usize = 0;
        proof {
            lemma_increasing_no_duplicates(ks);
        }
        while i < self.keys.len()
            invariant
                self.wf(),
                ks == key_views(self.keys@),
                ks.no_duplicates(),
                0 <= i <= self.keys@.len(),
                flags@.len() == i,
                forall|k: &[u8]|
                    self@.has(k@) ==> #[trigger] predicate.requires((k, &self.stored(k@))),
                forall|j: int, k: &[u8]|
                    0 <= j < i && k@ == ks[j] ==> #[trigger] predicate.ensures(
                        (k, &self.values@[j]),
                        flags@[j],
                    ),
            decreases self.keys@.len() - i,
        {
            let offered = self.keys[i].as_slice();
            proof {
                self.lemma_entry(i as int);
                assert(offered@ == self.keys@[i as int]@);
            }
            let matched = predicate(offered, &self.values[i]);
            flags.push(matched);
            proof {
                broadcast use vstd::slice::group_slice_axioms;

                assert forall|j: int, k: &[u8]| 0 <= j < i + 1 && k@ == ks[j] implies #[trigger] predicate.ensures(
                    (k, &self.values@[j]),
                    flags@[j],
                ) by {
                    if j == i {
                        assert(k =~= offered);
                    }
                }
            }
            i += 1;
        }
        let ghost hit = flagged_keys(ks, flags@);
        proof {
            assert forall|k: &[u8]| old(self)@.has(k@) implies #[trigger] predicate.ensures(
                (k, &old(self).stored(k@)),
                hit.contains(k@),
            ) by {
                let j = ks.index_of(k@);
                assert(ks[j] == k@);
                self.lemma_entry(j);
                if hit.contains(k@) {
                    let m = choose|m: int|
                        0 <= m < ks.len() && m < flags@.len() && #[trigger] ks[m] == k@ && flags@[m];
                    assert(m == j);
                } else {
                    assert(!flags@[j]);
                }
            }
        }
        self.clear_flagged(&flags, at_extrinsic);
    }
}

} // verus!
