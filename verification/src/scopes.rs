//! Laws about a single transaction that is opened around a sequence of
//! writes and then rolled back or committed.

use vstd::prelude::*;
use crate::laws::{lemma_commit_keeps_what_is_seen, lemma_single_version_outside_transactions};
use crate::model::{all_extrinsics, optional_index, visible, Overlay, Version};
use crate::preservation::{lemma_commit_wf, lemma_count_zero, lemma_start_wf};
use crate::runs::{
    apply_write, apply_writes, lemma_write_notes, lemma_writes_wf, noted, Write,
};

verus! {

/// The write is undone by a rollback: it is not a change in place of a key
/// that has no pending changes. Such a change leaves its initial value behind
/// as a version of its own, below the one of the transaction.
pub open spec fn undone_by_rollback(t: Overlay, w: Write) -> bool {
    w matches Write::Modify { key, .. } ==> t.has(key)
}

/// Every write of the sequence is undone by a rollback.
pub open spec fn all_undone_by_rollback(t: Overlay, ws: Seq<Write>) -> bool
    decreases ws.len(),
{
    if ws.len() == 0 {
        true
    } else {
        &&& all_undone_by_rollback(t, ws.drop_last())
        &&& undone_by_rollback(apply_writes(t, ws.drop_last()), ws.last())
    }
}

/// A rollback right after a write leads where the rollback alone leads.
pub proof fn lemma_write_then_rollback(t: Overlay, w: Write)
    requires
        t.wf(),
        t.depth() >= 1,
        undone_by_rollback(t, w),
    ensures
        apply_write(t, w).rollback_transaction() == t.rollback_transaction(),
{
    let a = apply_write(t, w).rollback_transaction();
    let b = t.rollback_transaction();
    match w {
        Write::Assign { key, value, at } => {
            if !t.has(key) {
                lemma_count_zero(t.dirty, key);
            }
        },
        Write::Modify { key, init, at, written } => {},
        Write::Clear { keys, at } => {},
    }
    assert forall|k: Seq<u8>| a.changes.dom().contains(k) == b.changes.dom().contains(k) by {
        if t.has(k) && t.dirty.last().contains(k) {
            assert(t.dirty[t.dirty.len() - 1].contains(k));
        }
    }
    assert forall|k: Seq<u8>| a.changes.dom().contains(k) implies #[trigger] a.changes[k]
        == b.changes[k] by {
        assert(t.has(k));
        let s = apply_write(t, w).changes[k];
        if t.dirty.last().contains(k) {
            assert(s.drop_last() =~= t.changes[k].drop_last());
        } else {
            assert(s == t.changes[k] || s.drop_last() =~= t.changes[k]);
        }
    }
    assert(a.changes =~= b.changes);
    assert(a.dirty =~= b.dirty);
}

/// Rollback neutrality: a transaction that is opened, written in, and rolled
/// back leaves the overlay as it was.
pub proof fn lemma_rollback_neutral(o: Overlay, ws: Seq<Write>)
    requires
        o.wf(),
        all_undone_by_rollback(o.start_transaction(), ws),
    ensures
        apply_writes(o.start_transaction(), ws).rollback_transaction() == o,
    decreases ws.len(),
{
    let t = o.start_transaction();
    lemma_start_wf(o);
    if ws.len() == 0 {
        assert(t.rollback_transaction().changes =~= o.changes);
        assert(t.rollback_transaction().dirty =~= o.dirty);
    } else {
        lemma_rollback_neutral(o, ws.drop_last());
        lemma_writes_wf(t, ws.drop_last());
        lemma_write_then_rollback(apply_writes(t, ws.drop_last()), ws.last());
    }
}

/// What a change in place records inside a transaction alone: its index,
/// where it changes a key that has pending changes and that the transaction
/// has not written yet. Such a change opens a version that names the index;
/// outside of any transaction it names none.
pub open spec fn noted_inside_alone(t: Overlay, w: Write, key: Seq<u8>) -> Set<u32> {
    match w {
        Write::Modify { key: written, init, at, written: value } => if written == key && t.has(key)
            && t.first_write(key) {
            optional_index(at)
        } else {
            Set::empty()
        },
        _ => Set::empty(),
    }
}

/// What the writes of the sequence, run from `t`, record for `key` inside a
/// transaction alone.
pub open spec fn all_noted_inside_alone(t: Overlay, ws: Seq<Write>, key: Seq<u8>) -> Set<u32>
    decreases ws.len(),
{
    if ws.len() == 0 {
        Set::empty()
    } else {
        all_noted_inside_alone(t, ws.drop_last(), key).union(
            noted_inside_alone(apply_writes(t, ws.drop_last()), ws.last(), key),
        )
    }
}

/// The same writes inside a fresh transaction and outside of any: they leave
/// the same keys with the same visible values, and inside the transaction the
/// versions of a key name the extrinsics that they name outside, and those
/// that changes in place record inside a transaction alone.
pub proof fn lemma_inside_and_outside(o: Overlay, ws: Seq<Write>, key: Seq<u8>)
    requires
        o.wf(),
        o.depth() == 0,
    ensures
        apply_writes(o.start_transaction(), ws).has(key) == apply_writes(o, ws).has(key),
        apply_writes(o, ws).has(key) ==> visible(
            apply_writes(o.start_transaction(), ws).changes[key],
        ) == visible(apply_writes(o, ws).changes[key]),
        all_extrinsics(apply_writes(o.start_transaction(), ws).stack_of(key)) == all_extrinsics(
            apply_writes(o, ws).stack_of(key),
        ).union(all_noted_inside_alone(o.start_transaction(), ws, key)),
    decreases ws.len(),
{
    let t0 = o.start_transaction();
    lemma_start_wf(o);
    if ws.len() == 0 {
        let had = all_extrinsics(o.stack_of(key));
        assert(had.union(Set::empty()) =~= had);
    } else {
        let earlier = ws.drop_last();
        let w = ws.last();
        let t = apply_writes(t0, earlier);
        let c = apply_writes(o, earlier);
        lemma_inside_and_outside(o, earlier, key);
        lemma_writes_wf(t0, earlier);
        lemma_writes_wf(o, earlier);
        lemma_write_notes(t, w, key);
        lemma_write_notes(c, w, key);
        assert(!c.first_write(key));
        assert(noted(t, w, key) =~= noted(c, w, key).union(noted_inside_alone(t, w, key)));
        assert(all_extrinsics(apply_write(t, w).stack_of(key)) =~= all_extrinsics(
            apply_write(c, w).stack_of(key),
        ).union(all_noted_inside_alone(t0, ws, key)));
    }
}

/// Commit = inline: from no open transaction, a transaction that is opened,
/// written in, and committed leaves no transaction open and hands the same
/// changes to the backing store as the same writes without any transaction.
/// The versions that it leaves name the extrinsics that the writes alone
/// leave, and those that changes in place record inside a transaction alone.
/// The two overlays are equal exactly where, for every key, the writes alone
/// name those extrinsics too.
pub proof fn lemma_commit_is_inline(o: Overlay, ws: Seq<Write>)
    requires
        o.wf(),
        o.depth() == 0,
    ensures
        apply_writes(o.start_transaction(), ws).commit_transaction().depth() == 0,
        apply_writes(o, ws).depth() == 0,
        apply_writes(o.start_transaction(), ws).commit_transaction().committed() == apply_writes(
            o,
            ws,
        ).committed(),
        forall|key: Seq<u8>| #[trigger]
            apply_writes(o, ws).has(key) ==> all_extrinsics(
                apply_writes(o.start_transaction(), ws).commit_transaction().changes[key],
            ) == all_extrinsics(apply_writes(o, ws).changes[key]).union(
                all_noted_inside_alone(o.start_transaction(), ws, key),
            ),
        apply_writes(o.start_transaction(), ws).commit_transaction() == apply_writes(o, ws) <==> (
        forall|key: Seq<u8>| #[trigger]
            apply_writes(o, ws).has(key) ==> all_noted_inside_alone(
                o.start_transaction(),
                ws,
                key,
            ).subset_of(all_extrinsics(apply_writes(o, ws).changes[key]))),
{
    let t0 = o.start_transaction();
    let t = apply_writes(t0, ws);
    let a = t.commit_transaction();
    let b = apply_writes(o, ws);
    lemma_start_wf(o);
    lemma_writes_wf(t0, ws);
    lemma_writes_wf(o, ws);
    lemma_commit_wf(t);
    assert(a.dirty =~= b.dirty);
    assert forall|key: Seq<u8>| a.has(key) == b.has(key) by {
        lemma_inside_and_outside(o, ws, key);
        lemma_commit_keeps_what_is_seen(t, key);
    }
    assert forall|key: Seq<u8>| #[trigger] b.has(key) implies {
        &&& a.changes[key].len() == 1
        &&& b.changes[key].len() == 1
        &&& a.changes[key][0].value == b.changes[key][0].value
        &&& all_extrinsics(a.changes[key]) == a.changes[key][0].extrinsics
        &&& all_extrinsics(b.changes[key]) == b.changes[key][0].extrinsics
        &&& all_extrinsics(a.changes[key]) == all_extrinsics(b.changes[key]).union(
            all_noted_inside_alone(t0, ws, key),
        )
    } by {
        lemma_inside_and_outside(o, ws, key);
        lemma_commit_keeps_what_is_seen(t, key);
        lemma_single_version_outside_transactions(a, key);
        lemma_single_version_outside_transactions(b, key);
        lemma_single_names(a.changes[key]);
        lemma_single_names(b.changes[key]);
    }
    assert(a.committed() =~= b.committed());
    let alike = forall|key: Seq<u8>| #[trigger]
        b.has(key) ==> all_noted_inside_alone(t0, ws, key).subset_of(
            all_extrinsics(b.changes[key]),
        );
    if alike {
        assert forall|key: Seq<u8>| a.changes.dom().contains(key) implies #[trigger] a.changes[key]
            == b.changes[key] by {
            assert(b.has(key));
            assert(a.changes[key][0].extrinsics =~= b.changes[key][0].extrinsics);
            assert(a.changes[key] =~= b.changes[key]);
        }
        assert forall|key: Seq<u8>| a.changes.dom().contains(key) == b.changes.dom().contains(
            key,
        ) by {
            assert(a.has(key) == b.has(key));
        }
        assert(a.changes.dom() =~= b.changes.dom());
        assert(a.changes =~= b.changes);
    }
    if a == b {
        assert forall|key: Seq<u8>| #[trigger] b.has(key) implies all_noted_inside_alone(
            t0,
            ws,
            key,
        ).subset_of(all_extrinsics(b.changes[key])) by {}
    }
}

/// A stack of one version names the extrinsics of that version.
proof fn lemma_single_names(stack: Seq<Version>)
    requires
        stack.len() == 1,
    ensures
        all_extrinsics(stack) == stack[0].extrinsics,
{
    assert forall|e: u32| all_extrinsics(stack).contains(e) == stack[0].extrinsics.contains(e) by {
        if stack[0].extrinsics.contains(e) {
            assert(stack[0].extrinsics.contains(e));
        }
    }
    assert(all_extrinsics(stack) =~= stack[0].extrinsics);
}

} // verus!
