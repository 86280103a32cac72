//! Every operation of the model keeps the overlay's invariant.

use vstd::prelude::*;
use crate::model::{count_dirty, Overlay};

verus! {

/// A key that is in none of the dirty sets is counted zero times.
pub proof fn lemma_count_zero(dirty: Seq<Set<Seq<u8>>>, key: Seq<u8>)
    requires
        forall|i: int| 0 <= i < dirty.len() ==> !(#[trigger] dirty[i]).contains(key),
    ensures
        count_dirty(dirty, key) == 0,
    decreases dirty.len(),
{
    if dirty.len() > 0 {
        let rest = dirty.drop_last();
        assert forall|i: int| 0 <= i < rest.len() implies !(#[trigger] rest[i]).contains(key) by {
            assert(rest[i] == dirty[i]);
        }
        lemma_count_zero(rest, key);
        assert(dirty.last() == dirty[dirty.len() - 1]);
    }
}

/// A key that is in one of the dirty sets is counted at least once.
pub proof fn lemma_count_positive(dirty: Seq<Set<Seq<u8>>>, key: Seq<u8>, i: int)
    requires
        0 <= i < dirty.len(),
        dirty[i].contains(key),
    ensures
        count_dirty(dirty, key) >= 1,
    decreases dirty.len(),
{
    if i < dirty.len() - 1 {
        let rest = dirty.drop_last();
        assert(rest[i] == dirty[i]);
        lemma_count_positive(rest, key, i);
    }
}

/// No key is counted more often than there are dirty sets.
pub proof fn lemma_count_at_most_depth(dirty: Seq<Set<Seq<u8>>>, key: Seq<u8>)
    ensures
        count_dirty(dirty, key) <= dirty.len(),
    decreases dirty.len(),
{
    if dirty.len() > 0 {
        lemma_count_at_most_depth(dirty.drop_last(), key);
    }
}

/// Counting after the innermost set was replaced.
pub proof fn lemma_count_update_last(dirty: Seq<Set<Seq<u8>>>, last: Set<Seq<u8>>, key: Seq<u8>)
    requires
        dirty.len() > 0,
    ensures
        count_dirty(dirty.update(dirty.len() - 1, last), key) == count_dirty(dirty.drop_last(), key)
            + if last.contains(key) {
            1nat
        } else {
            0nat
        },
{
    let updated = dirty.update(dirty.len() - 1, last);
    assert(updated.drop_last() =~= dirty.drop_last());
    assert(updated.last() == last);
}

/// Counting after one more set was pushed.
pub proof fn lemma_count_push(dirty: Seq<Set<Seq<u8>>>, last: Set<Seq<u8>>, key: Seq<u8>)
    ensures
        count_dirty(dirty.push(last), key) == count_dirty(dirty, key) + if last.contains(key) {
            1nat
        } else {
            0nat
        },
{
    let pushed = dirty.push(last);
    assert(pushed.drop_last() =~= dirty);
    assert(pushed.last() == last);
}

/// A fresh overlay meets the invariant.
pub proof fn lemma_new_wf(depth: nat)
    ensures
        Overlay::new_at_depth(depth).wf(),
        Overlay::new_at_depth(depth).depth() == depth,
{
}

/// A write keeps the invariant.
pub proof fn lemma_set_wf(o: Overlay, key: Seq<u8>, value: Option<Seq<u8>>, at: Option<u32>)
    requires
        o.wf(),
    ensures
        o.set(key, value, at).wf(),
        o.set(key, value, at).depth() == o.depth(),
{
    let n = o.set(key, value, at);
    if !o.has(key) {
        lemma_count_zero(o.dirty, key);
    }
    assert forall|k: Seq<u8>| #[trigger] n.has(k) implies {
        &&& n.changes[k].len() >= 1
        &&& count_dirty(n.dirty, k) <= n.changes[k].len() <= count_dirty(n.dirty, k) + 1
    } by {
        if o.dirty.len() > 0 {
            lemma_count_update_last(o.dirty, o.dirty.last().union(Set::empty().insert(key)), k);
        }
        if k != key {
            assert(o.has(k));
        }
    }
    assert forall|i: int, k: Seq<u8>|
        0 <= i < n.dirty.len() && #[trigger] n.dirty[i].contains(k) implies n.has(k) by {
        if k != key {
            assert(o.dirty[i].contains(k));
            assert(o.has(k));
        }
    }
}

/// A change in place keeps the invariant.
pub proof fn lemma_modify_wf(
    o: Overlay,
    key: Seq<u8>,
    init: Seq<u8>,
    at: Option<u32>,
    written: Option<Seq<u8>>,
)
    requires
        o.wf(),
    ensures
        o.modify(key, init, at, written).wf(),
        o.modify(key, init, at, written).depth() == o.depth(),
        o.touched_stack(key, init, at).len() >= 1,
{
    let n = o.modify(key, init, at, written);
    if !o.has(key) {
        lemma_count_zero(o.dirty, key);
    }
    assert forall|k: Seq<u8>| #[trigger] n.has(k) implies {
        &&& n.changes[k].len() >= 1
        &&& count_dirty(n.dirty, k) <= n.changes[k].len() <= count_dirty(n.dirty, k) + 1
    } by {
        if o.dirty.len() > 0 {
            lemma_count_update_last(o.dirty, o.dirty.last().union(Set::empty().insert(key)), k);
        }
        if k != key {
            assert(o.has(k));
        }
    }
    assert forall|i: int, k: Seq<u8>|
        0 <= i < n.dirty.len() && #[trigger] n.dirty[i].contains(k) implies n.has(k) by {
        if k != key {
            assert(o.dirty[i].contains(k));
            assert(o.has(k));
        }
    }
}

/// Deleting a set of keys keeps the invariant.
pub proof fn lemma_clear_wf(o: Overlay, keys: Set<Seq<u8>>, at: Option<u32>)
    requires
        o.wf(),
    ensures
        o.clear(keys, at).wf(),
        o.clear(keys, at).depth() == o.depth(),
{
    let n = o.clear(keys, at);
    assert forall|k: Seq<u8>| #[trigger] n.has(k) implies {
        &&& n.changes[k].len() >= 1
        &&& count_dirty(n.dirty, k) <= n.changes[k].len() <= count_dirty(n.dirty, k) + 1
    } by {
        assert(o.has(k));
        if o.dirty.len() > 0 {
            lemma_count_update_last(o.dirty, o.dirty.last().union(keys.intersect(o.changes.dom())), k);
        }
    }
    assert forall|i: int, k: Seq<u8>|
        0 <= i < n.dirty.len() && #[trigger] n.dirty[i].contains(k) implies n.has(k) by {
        if !keys.intersect(o.changes.dom()).contains(k) {
            assert(o.dirty[i].contains(k));
        }
        assert(o.has(k));
    }
}

/// Opening a transaction keeps the invariant.
pub proof fn lemma_start_wf(o: Overlay)
    requires
        o.wf(),
    ensures
        o.start_transaction().wf(),
        o.start_transaction().depth() == o.depth() + 1,
{
    let n = o.start_transaction();
    assert forall|k: Seq<u8>| #[trigger] n.has(k) implies {
        &&& n.changes[k].len() >= 1
        &&& count_dirty(n.dirty, k) <= n.changes[k].len() <= count_dirty(n.dirty, k) + 1
    } by {
        assert(o.has(k));
        lemma_count_push(o.dirty, Set::empty(), k);
    }
    assert forall|i: int, k: Seq<u8>|
        0 <= i < n.dirty.len() && #[trigger] n.dirty[i].contains(k) implies n.has(k) by {
        assert(o.dirty[i].contains(k));
    }
}

/// Rolling the innermost transaction back keeps the invariant.
pub proof fn lemma_rollback_wf(o: Overlay)
    requires
        o.wf(),
        o.depth() >= 1,
    ensures
        o.rollback_transaction().wf(),
        o.rollback_transaction().depth() == o.depth() - 1,
{
    let n = o.rollback_transaction();
    let closing = o.dirty.last();
    assert forall|k: Seq<u8>| #[trigger] n.has(k) implies {
        &&& n.changes[k].len() >= 1
        &&& count_dirty(n.dirty, k) <= n.changes[k].len() <= count_dirty(n.dirty, k) + 1
    } by {
        assert(o.has(k));
    }
    assert forall|i: int, k: Seq<u8>|
        0 <= i < n.dirty.len() && #[trigger] n.dirty[i].contains(k) implies n.has(k) by {
        assert(o.dirty[i].contains(k));
        assert(o.has(k));
        lemma_count_positive(n.dirty, k, i);
    }
}

/// Committing the innermost transaction keeps the invariant.
pub proof fn lemma_commit_wf(o: Overlay)
    requires
        o.wf(),
        o.depth() >= 1,
    ensures
        o.commit_transaction().wf(),
        o.commit_transaction().depth() == o.depth() - 1,
{
    let n = o.commit_transaction();
    let closing = o.dirty.last();
    let rest = o.dirty.drop_last();
    assert forall|k: Seq<u8>| #[trigger] n.has(k) implies {
        &&& n.changes[k].len() >= 1
        &&& count_dirty(n.dirty, k) <= n.changes[k].len() <= count_dirty(n.dirty, k) + 1
    } by {
        assert(o.has(k));
        let in_closing = if closing.contains(k) { 1nat } else { 0nat };
        assert(count_dirty(o.dirty, k) == count_dirty(rest, k) + in_closing);
        if rest.len() > 0 {
            let in_parent = if rest.last().contains(k) { 1nat } else { 0nat };
            assert(count_dirty(rest, k) == count_dirty(rest.drop_last(), k) + in_parent);
            lemma_count_update_last(rest, rest.last().union(closing), k);
            assert(rest.last() == o.dirty[o.dirty.len() - 2]);
        } else {
            assert(count_dirty(rest, k) == 0);
            assert(count_dirty(n.dirty, k) == 0);
        }
    }
    assert forall|i: int, k: Seq<u8>|
        0 <= i < n.dirty.len() && #[trigger] n.dirty[i].contains(k) implies n.has(k) by {
        if i < rest.len() - 1 {
            assert(o.dirty[i].contains(k));
        } else if rest.last().contains(k) {
            assert(o.dirty[i].contains(k));
        } else {
            assert(o.dirty[o.dirty.len() - 1].contains(k));
        }
        assert(o.has(k));
    }
}

/// A key written both in the innermost transaction and in its parent has at
/// least two versions.
pub proof fn lemma_written_twice(o: Overlay, key: Seq<u8>)
    requires
        o.wf(),
        o.depth() >= 2,
        o.dirty.last().contains(key),
        o.dirty[o.dirty.len() - 2].contains(key),
    ensures
        o.has(key),
        o.changes[key].len() >= 2,
{
    let rest = o.dirty.drop_last();
    assert(o.dirty[o.dirty.len() - 1].contains(key));
    assert(o.has(key));
    assert(count_dirty(o.dirty, key) == count_dirty(rest, key) + 1);
    assert(rest.last() == o.dirty[o.dirty.len() - 2]);
    assert(count_dirty(rest, key) == count_dirty(rest.drop_last(), key) + 1);
}

} // verus!
