//! Sequences of operations on the overlay, and the laws that hold of them.

use vstd::prelude::*;
use crate::laws::{lemma_commit_keeps_what_is_seen, lemma_write_records_extrinsic};
use crate::model::{all_extrinsics, optional_index, visible, with_top_value, Overlay, Version};
use crate::preservation::{
    lemma_clear_wf, lemma_commit_wf, lemma_modify_wf, lemma_rollback_wf, lemma_set_wf,
    lemma_start_wf,
};

verus! {

/// A write to the overlay.
pub enum Write {
    /// `value` is written to `key`.
    Assign { key: Seq<u8>, value: Option<Seq<u8>>, at: Option<u32> },
    /// `key` is changed in place, ending with `written` as its visible value.
    Modify { key: Seq<u8>, init: Seq<u8>, at: Option<u32>, written: Option<Seq<u8>> },
    /// The keys of `keys` that have pending changes are deleted.
    Clear { keys: Set<Seq<u8>>, at: Option<u32> },
}

/// An operation on the overlay.
pub enum Step {
    /// A write.
    Write(Write),
    /// A transaction is opened.
    Open,
    /// The innermost transaction is committed.
    Commit,
    /// The innermost transaction is rolled back.
    Rollback,
}

/// The overlay after one write.
pub open spec fn apply_write(o: Overlay, w: Write) -> Overlay {
    match w {
        Write::Assign { key, value, at } => o.set(key, value, at),
        Write::Modify { key, init, at, written } => o.modify(key, init, at, written),
        Write::Clear { keys, at } => o.clear(keys, at),
    }
}

/// The overlay after a sequence of writes.
pub open spec fn apply_writes(o: Overlay, ws: Seq<Write>) -> Overlay
    decreases ws.len(),
{
    if ws.len() == 0 {
        o
    } else {
        apply_write(apply_writes(o, ws.drop_last()), ws.last())
    }
}

/// The overlay after one operation.
pub open spec fn apply_step(o: Overlay, s: Step) -> Overlay {
    match s {
        Step::Write(w) => apply_write(o, w),
        Step::Open => o.start_transaction(),
        Step::Commit => o.commit_transaction(),
        Step::Rollback => o.rollback_transaction(),
    }
}

/// The overlay after a sequence of operations.
pub open spec fn run(o: Overlay, steps: Seq<Step>) -> Overlay
    decreases steps.len(),
{
    if steps.len() == 0 {
        o
    } else {
        apply_step(run(o, steps.drop_last()), steps.last())
    }
}

/// No operation of the sequence closes a transaction while none is open.
pub open spec fn legal(o: Overlay, steps: Seq<Step>) -> bool
    decreases steps.len(),
{
    if steps.len() == 0 {
        true
    } else {
        &&& legal(o, steps.drop_last())
        &&& (steps.last() is Commit || steps.last() is Rollback) ==> run(
            o,
            steps.drop_last(),
        ).depth() >= 1
    }
}

/// How many operations of the sequence open a transaction.
pub open spec fn opened(steps: Seq<Step>) -> nat
    decreases steps.len(),
{
    if steps.len() == 0 {
        0
    } else {
        opened(steps.drop_last()) + if steps.last() is Open {
            1nat
        } else {
            0nat
        }
    }
}

/// How many operations of the sequence close a transaction.
pub open spec fn closed(steps: Seq<Step>) -> nat
    decreases steps.len(),
{
    if steps.len() == 0 {
        0
    } else {
        closed(steps.drop_last()) + if steps.last() is Commit || steps.last() is Rollback {
            1nat
        } else {
            0nat
        }
    }
}

/// A write keeps the invariant and the depth.
pub proof fn lemma_write_wf(o: Overlay, w: Write)
    requires
        o.wf(),
    ensures
        apply_write(o, w).wf(),
        apply_write(o, w).depth() == o.depth(),
{
    match w {
        Write::Assign { key, value, at } => lemma_set_wf(o, key, value, at),
        Write::Modify { key, init, at, written } => lemma_modify_wf(o, key, init, at, written),
        Write::Clear { keys, at } => lemma_clear_wf(o, keys, at),
    }
}

/// A sequence of writes keeps the invariant and the depth.
pub proof fn lemma_writes_wf(o: Overlay, ws: Seq<Write>)
    requires
        o.wf(),
    ensures
        apply_writes(o, ws).wf(),
        apply_writes(o, ws).depth() == o.depth(),
    decreases ws.len(),
{
    if ws.len() > 0 {
        lemma_writes_wf(o, ws.drop_last());
        lemma_write_wf(apply_writes(o, ws.drop_last()), ws.last());
    }
}

/// Balance: any sequence of operations that never closes a transaction while
/// none is open keeps the invariant, and leaves as many transactions open as
/// were open before, plus those it opened, less those it closed. From no open
/// transaction, as many opens as closes lead back to no open transaction,
/// where the committed changes can be drained.
pub proof fn lemma_balance(o: Overlay, steps: Seq<Step>)
    requires
        o.wf(),
        legal(o, steps),
    ensures
        run(o, steps).wf(),
        run(o, steps).depth() + closed(steps) == o.depth() + opened(steps),
        o.depth() == 0 && opened(steps) == closed(steps) ==> run(o, steps).depth() == 0,
    decreases steps.len(),
{
    if steps.len() > 0 {
        let before = run(o, steps.drop_last());
        lemma_balance(o, steps.drop_last());
        match steps.last() {
            Step::Write(w) => lemma_write_wf(before, w),
            Step::Open => lemma_start_wf(before),
            Step::Commit => lemma_commit_wf(before),
            Step::Rollback => lemma_rollback_wf(before),
        }
    }
}

/// The extrinsic that a write to the overlay `before` records for `key`: a
/// `set` of the key records its index, a `clear` records it where it deletes
/// the key, and a change in place records it where it creates the key or is
/// the first write to it in the innermost transaction.
pub open spec fn noted(before: Overlay, w: Write, key: Seq<u8>) -> Set<u32> {
    match w {
        Write::Assign { key: written, value, at } => if written == key {
            optional_index(at)
        } else {
            Set::empty()
        },
        Write::Modify { key: written, init, at, written: value } => if written == key && (
        !before.has(key) || before.first_write(key)) {
            optional_index(at)
        } else {
            Set::empty()
        },
        Write::Clear { keys, at } => if keys.contains(key) && before.has(key) {
            optional_index(at)
        } else {
            Set::empty()
        },
    }
}

/// Replacing the visible value changes no extrinsic.
pub proof fn lemma_top_value_keeps_extrinsics(stack: Seq<Version>, value: Option<Seq<u8>>)
    requires
        stack.len() >= 1,
    ensures
        all_extrinsics(with_top_value(stack, value)) == all_extrinsics(stack),
        visible(with_top_value(stack, value)) == value,
{
    let changed = with_top_value(stack, value);
    assert forall|e: u32| all_extrinsics(changed).contains(e) == all_extrinsics(stack).contains(e) by {
        if all_extrinsics(changed).contains(e) {
            let i = choose|i: int| 0 <= i < changed.len() && #[trigger] changed[i].extrinsics.contains(e);
            assert(stack[i].extrinsics.contains(e));
        }
        if all_extrinsics(stack).contains(e) {
            let i = choose|i: int| 0 <= i < stack.len() && #[trigger] stack[i].extrinsics.contains(e);
            assert(changed[i].extrinsics.contains(e));
        }
    }
    assert(all_extrinsics(changed) =~= all_extrinsics(stack));
}

/// What a write does to one key: the versions of the key name the
/// extrinsics that they named before and the one that the write records for
/// the key. A key that the write does not touch keeps its versions.
pub proof fn lemma_write_notes(before: Overlay, w: Write, key: Seq<u8>)
    requires
        before.wf(),
    ensures
        all_extrinsics(apply_write(before, w).stack_of(key)) == all_extrinsics(
            before.stack_of(key),
        ).union(noted(before, w, key)),
        apply_write(before, w).has(key) == (before.has(key) || match w {
            Write::Assign { key: written, .. } => written == key,
            Write::Modify { key: written, .. } => written == key,
            Write::Clear { .. } => false,
        }),
        apply_write(before, w).has(key) ==> visible(apply_write(before, w).changes[key]) == match w {
            Write::Assign { key: written, value, .. } => if written == key {
                value
            } else {
                visible(before.changes[key])
            },
            Write::Modify { key: written, written: value, .. } => if written == key {
                value
            } else {
                visible(before.changes[key])
            },
            Write::Clear { keys, .. } => if keys.contains(key) {
                None
            } else {
                visible(before.changes[key])
            },
        },
{
    let after = apply_write(before, w);
    let had = all_extrinsics(before.stack_of(key));
    assert(all_extrinsics(Seq::<Version>::empty()) =~= Set::<u32>::empty());
    match w {
        Write::Assign { key: written, value, at } => {
            if written == key {
                lemma_write_records_extrinsic(
                    before.stack_of(key),
                    value,
                    before.first_write(key),
                    at,
                );
            } else {
                assert(after.stack_of(key) == before.stack_of(key));
                assert(had.union(Set::empty()) =~= had);
            }
        },
        Write::Modify { key: written, init, at, written: value } => {
            if written == key {
                let present = if before.has(key) {
                    before.changes[key]
                } else {
                    Seq::empty().push(Version { value: Some(init), extrinsics: optional_index(at) })
                };
                let touched = before.touched_stack(key, init, at);
                lemma_modify_wf(before, key, init, at, value);
                lemma_top_value_keeps_extrinsics(touched, value);
                if !before.has(key) {
                    assert forall|e: u32| all_extrinsics(present).contains(e) == optional_index(
                        at,
                    ).contains(e) by {
                        if optional_index(at).contains(e) {
                            assert(present[0].extrinsics.contains(e));
                        }
                    }
                    assert(all_extrinsics(present) =~= optional_index(at));
                }
                if before.first_write(key) {
                    lemma_write_records_extrinsic(present, visible(present), true, at);
                }
                assert(all_extrinsics(touched) =~= had.union(noted(before, w, key)));
            } else {
                assert(after.stack_of(key) == before.stack_of(key));
                assert(had.union(Set::empty()) =~= had);
            }
        },
        Write::Clear { keys, at } => {
            if keys.contains(key) && before.has(key) {
                lemma_write_records_extrinsic(
                    before.changes[key],
                    None,
                    before.first_write(key),
                    at,
                );
            } else {
                assert(after.stack_of(key) == before.stack_of(key));
                assert(had.union(Set::empty()) =~= had);
            }
        },
    }
}

/// No operation of the sequence rolls a transaction back.
pub open spec fn never_rolls_back(steps: Seq<Step>) -> bool {
    forall|i: int| 0 <= i < steps.len() ==> !(#[trigger] steps[i] is Rollback)
}

/// The extrinsics that the writes of the sequence, run from `o`, record for
/// `key`.
pub open spec fn recorded(o: Overlay, steps: Seq<Step>, key: Seq<u8>) -> Set<u32>
    decreases steps.len(),
{
    if steps.len() == 0 {
        Set::empty()
    } else {
        let earlier = recorded(o, steps.drop_last(), key);
        match steps.last() {
            Step::Write(w) => earlier.union(noted(run(o, steps.drop_last()), w, key)),
            _ => earlier,
        }
    }
}

/// Extrinsic union: after a sequence of writes in transactions that are all
/// committed, the versions of a key name exactly the extrinsics that they
/// named before and those that the writes recorded for the key.
pub proof fn lemma_extrinsic_union(o: Overlay, steps: Seq<Step>, key: Seq<u8>)
    requires
        o.wf(),
        legal(o, steps),
        never_rolls_back(steps),
    ensures
        all_extrinsics(run(o, steps).stack_of(key)) == all_extrinsics(o.stack_of(key)).union(
            recorded(o, steps, key),
        ),
    decreases steps.len(),
{
    let had = all_extrinsics(o.stack_of(key));
    if steps.len() == 0 {
        assert(had.union(recorded(o, steps, key)) =~= had);
    } else {
        let earlier = steps.drop_last();
        let before = run(o, earlier);
        assert forall|i: int| 0 <= i < earlier.len() implies !(#[trigger] earlier[i] is Rollback) by {
            assert(earlier[i] == steps[i]);
        }
        lemma_extrinsic_union(o, earlier, key);
        lemma_balance(o, earlier);
        assert(steps.last() == steps[steps.len() - 1]);
        match steps.last() {
            Step::Write(w) => {
                lemma_write_notes(before, w, key);
                assert(had.union(recorded(o, earlier, key)).union(noted(before, w, key))
                    =~= had.union(recorded(o, steps, key)));
            },
            Step::Open => {},
            Step::Commit => {
                lemma_commit_keeps_what_is_seen(before, key);
            },
            Step::Rollback => {},
        }
    }
}

} // verus!
