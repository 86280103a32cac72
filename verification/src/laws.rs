//! Laws of the overlay that relate several operations, stated over the model
//! that the contracts of the operations speak of.

use vstd::prelude::*;
use crate::model::{
    all_extrinsics, count_dirty, optional_index, stack_fold_top, stack_write, visible, Overlay,
    Version,
};
use crate::preservation::{
    lemma_commit_wf, lemma_count_at_most_depth, lemma_set_wf,
};

verus! {

/// Adding a dirty set never lowers a key's count.
proof fn lemma_count_prefix(dirty: Seq<Set<Seq<u8>>>, key: Seq<u8>, n: int)
    requires
        0 <= n <= dirty.len(),
    ensures
        count_dirty(dirty.take(n), key) <= count_dirty(dirty, key),
    decreases dirty.len() - n,
{
    if n == dirty.len() {
        assert(dirty.take(n) =~= dirty);
    } else {
        lemma_count_prefix(dirty, key, n + 1);
        assert(dirty.take(n + 1).drop_last() =~= dirty.take(n));
    }
}

/// A key that is in every one of the dirty sets is counted once for each.
proof fn lemma_count_full(dirty: Seq<Set<Seq<u8>>>, key: Seq<u8>)
    requires
        forall|j: int| 0 <= j < dirty.len() ==> (#[trigger] dirty[j]).contains(key),
    ensures
        count_dirty(dirty, key) == dirty.len(),
    decreases dirty.len(),
{
    if dirty.len() > 0 {
        let rest = dirty.drop_last();
        assert forall|j: int| 0 <= j < rest.len() implies (#[trigger] rest[j]).contains(key) by {
            assert(rest[j] == dirty[j]);
        }
        lemma_count_full(rest, key);
        assert(dirty.last() == dirty[dirty.len() - 1]);
    }
}

/// Version-stack bound: no key has more versions than one plus the number of
/// open transactions.
pub proof fn lemma_version_bound(o: Overlay, key: Seq<u8>)
    requires
        o.wf(),
        o.has(key),
    ensures
        1 <= o.changes[key].len() <= 1 + o.depth(),
{
    lemma_count_at_most_depth(o.dirty, key);
}

/// Dirty-set soundness: a key named by the dirty set of transaction `i` has
/// pending changes, and it has at least one version for each transaction up
/// to `i` that names it. Where every transaction up to `i` names the key, it
/// has at least `i + 1` versions.
pub proof fn lemma_dirty_sound(o: Overlay, i: int, key: Seq<u8>)
    requires
        o.wf(),
        0 <= i < o.depth(),
        o.dirty[i].contains(key),
    ensures
        o.has(key),
        o.changes[key].len() >= count_dirty(o.dirty.take(i + 1), key) >= 1,
        (forall|j: int| 0 <= j <= i ==> (#[trigger] o.dirty[j]).contains(key)) ==> o.changes[key].len()
            >= i + 1,
{
    let upto = o.dirty.take(i + 1);
    lemma_count_prefix(o.dirty, key, i + 1);
    assert(upto.last() == o.dirty[i]);
    if forall|j: int| 0 <= j <= i ==> (#[trigger] o.dirty[j]).contains(key) {
        assert forall|j: int| 0 <= j < upto.len() implies (#[trigger] upto[j]).contains(key) by {
            assert(upto[j] == o.dirty[j]);
        }
        lemma_count_full(upto, key);
    }
}

/// A write to a stack records its extrinsic and keeps those recorded before.
pub proof fn lemma_write_records_extrinsic(
    stack: Seq<Version>,
    value: Option<Seq<u8>>,
    first_write_in_tx: bool,
    at: Option<u32>,
)
    ensures
        all_extrinsics(stack_write(stack, value, first_write_in_tx, at)) == all_extrinsics(
            stack,
        ).union(optional_index(at)),
        visible(stack_write(stack, value, first_write_in_tx, at)) == value,
{
    let written = stack_write(stack, value, first_write_in_tx, at);
    let top = written.len() - 1;
    assert forall|e: u32| all_extrinsics(written).contains(e) == all_extrinsics(stack).union(
        optional_index(at),
    ).contains(e) by {
        if all_extrinsics(written).contains(e) {
            let i = choose|i: int| 0 <= i < written.len() && #[trigger] written[i].extrinsics.contains(e);
            if i < top {
                assert(written[i] == stack[i]);
                assert(stack[i].extrinsics.contains(e));
            } else if !optional_index(at).contains(e) {
                assert(stack[top].extrinsics.contains(e));
            }
        }
        if all_extrinsics(stack).contains(e) {
            let i = choose|i: int| 0 <= i < stack.len() && #[trigger] stack[i].extrinsics.contains(e);
            assert(written[i].extrinsics.contains(e));
        }
        if optional_index(at).contains(e) {
            assert(written[top].extrinsics.contains(e));
        }
    }
    assert(all_extrinsics(written) =~= all_extrinsics(stack).union(optional_index(at)));
}

/// Folding the top version into the one below loses no extrinsic, gains none,
/// and keeps the visible value.
pub proof fn lemma_fold_keeps_extrinsics(stack: Seq<Version>)
    requires
        stack.len() >= 2,
    ensures
        all_extrinsics(stack_fold_top(stack)) == all_extrinsics(stack),
        visible(stack_fold_top(stack)) == visible(stack),
        stack_fold_top(stack).len() == stack.len() - 1,
{
    let folded = stack_fold_top(stack);
    let top = folded.len() - 1;
    assert forall|e: u32| all_extrinsics(folded).contains(e) == all_extrinsics(stack).contains(e) by {
        if all_extrinsics(folded).contains(e) {
            let i = choose|i: int| 0 <= i < folded.len() && #[trigger] folded[i].extrinsics.contains(e);
            if i < top {
                assert(folded[i] == stack[i]);
                assert(stack[i].extrinsics.contains(e));
            } else if stack[top].extrinsics.contains(e) {
            } else {
                assert(stack[top + 1].extrinsics.contains(e));
            }
        }
        if all_extrinsics(stack).contains(e) {
            let i = choose|i: int| 0 <= i < stack.len() && #[trigger] stack[i].extrinsics.contains(e);
            if i < top {
                assert(folded[i].extrinsics.contains(e));
            } else {
                assert(folded[top].extrinsics.contains(e));
            }
        }
    }
    assert(all_extrinsics(folded) =~= all_extrinsics(stack));
}

/// A commit keeps, for every key, the visible value and the extrinsics that
/// its versions name.
pub proof fn lemma_commit_keeps_what_is_seen(o: Overlay, key: Seq<u8>)
    requires
        o.wf(),
        o.depth() >= 1,
    ensures
        o.commit_transaction().has(key) == o.has(key),
        o.has(key) ==> visible(o.commit_transaction().changes[key]) == visible(o.changes[key]),
        o.has(key) ==> all_extrinsics(o.commit_transaction().changes[key]) == all_extrinsics(
            o.changes[key],
        ),
{
    if o.has(key) && o.dirty.last().contains(key) && o.has_predecessor(key) {
        if o.dirty.len() >= 2 {
            crate::preservation::lemma_written_twice(o, key);
        }
        lemma_fold_keeps_extrinsics(o.changes[key]);
    }
}

/// The overlay after all open transactions were committed, innermost first.
pub open spec fn commit_all(o: Overlay) -> Overlay
    decreases o.dirty.len(),
{
    if o.dirty.len() == 0 {
        o
    } else {
        commit_all(o.commit_transaction())
    }
}

/// Committing all open transactions leaves none open, and keeps for every
/// key the visible value and the extrinsics that its versions name.
pub proof fn lemma_commit_all(o: Overlay, key: Seq<u8>)
    requires
        o.wf(),
    ensures
        commit_all(o).wf(),
        commit_all(o).depth() == 0,
        commit_all(o).has(key) == o.has(key),
        o.has(key) ==> commit_all(o).committed()[key] == visible(o.changes[key]),
        o.has(key) ==> all_extrinsics(commit_all(o).changes[key]) == all_extrinsics(o.changes[key]),
    decreases o.dirty.len(),
{
    if o.dirty.len() > 0 {
        lemma_commit_wf(o);
        lemma_commit_keeps_what_is_seen(o, key);
        lemma_commit_all(o.commit_transaction(), key);
    }
}

/// Tombstone semantics: a deletion that is written and then committed through
/// all open transactions is handed to the backing store as a deletion.
pub proof fn lemma_tombstone_survives_commits(o: Overlay, key: Seq<u8>, at: Option<u32>)
    requires
        o.wf(),
    ensures
        commit_all(o.set(key, None, at)).depth() == 0,
        commit_all(o.set(key, None, at)).committed().dom().contains(key),
        commit_all(o.set(key, None, at)).committed()[key] == None::<Seq<u8>>,
{
    let written = o.set(key, None, at);
    lemma_set_wf(o, key, None, at);
    lemma_write_records_extrinsic(o.stack_of(key), None, o.first_write(key), at);
    lemma_commit_all(written, key);
}

/// Scope of a clear: it deletes exactly the keys of the given set that have
/// pending changes. No key enters or leaves the overlay, the deleted keys
/// show a deletion, and every other key keeps its versions.
pub proof fn lemma_clear_scope(o: Overlay, keys: Set<Seq<u8>>, at: Option<u32>, key: Seq<u8>)
    ensures
        o.clear(keys, at).has(key) == o.has(key),
        o.has(key) && keys.contains(key) ==> visible(o.clear(keys, at).changes[key]) == None::<
            Seq<u8>,
        >,
        o.has(key) && !keys.contains(key) ==> o.clear(keys, at).changes[key] == o.changes[key],
{
    if o.has(key) && keys.contains(key) {
        lemma_write_records_extrinsic(o.changes[key], None, o.first_write(key), at);
    }
}

/// A changeset that starts out with `depth + 1` open transactions is one
/// that starts out with `depth` of them and then opens one more.
pub proof fn lemma_depth_is_repeated_start(depth: nat)
    ensures
        Overlay::new_at_depth(depth + 1) == Overlay::new_at_depth(depth).start_transaction(),
{
    let a = Overlay::new_at_depth(depth + 1);
    let b = Overlay::new_at_depth(depth).start_transaction();
    assert(a.dirty =~= b.dirty);
}

/// While no transaction is open, every key with pending changes has exactly
/// one version.
pub proof fn lemma_single_version_outside_transactions(o: Overlay, key: Seq<u8>)
    requires
        o.wf(),
        o.depth() == 0,
        o.has(key),
    ensures
        o.changes[key].len() == 1,
{
    lemma_count_at_most_depth(o.dirty, key);
}

} // verus!
