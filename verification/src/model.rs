//! The mathematical model of the overlay: what each operation means on maps,
//! sets and sequences, independent of how the data is laid out in memory.

use vstd::prelude::*;
use crate::index_set::{ascending_listing, lists_ascending};

verus! {

/// One version of a value: the value written in one scope (`None` marks a
/// deletion) and the extrinsics that wrote it there.
pub struct Version {
    pub value: Option<Seq<u8>>,
    pub extrinsics: Set<u32>,
}

/// A version that holds `value` and names no extrinsic yet.
pub open spec fn fresh_version(value: Option<Seq<u8>>) -> Version {
    Version { value, extrinsics: Set::empty() }
}

/// The set that holds `at`, if there is one, and nothing else.
pub open spec fn optional_index(at: Option<u32>) -> Set<u32> {
    match at {
        Some(e) => Set::empty().insert(e),
        None => Set::empty(),
    }
}

/// The stack with the value of its top version replaced.
pub open spec fn with_top_value(stack: Seq<Version>, value: Option<Seq<u8>>) -> Seq<Version> {
    stack.update(stack.len() - 1, Version { value, extrinsics: stack.last().extrinsics })
}

/// The stack with `at`, if there is one, added to the extrinsics of its top
/// version.
pub open spec fn with_top_extrinsic(stack: Seq<Version>, at: Option<u32>) -> Seq<Version> {
    stack.update(
        stack.len() - 1,
        Version {
            value: stack.last().value,
            extrinsics: stack.last().extrinsics.union(optional_index(at)),
        },
    )
}

/// A write to a version stack. The first write of a transaction, and any write
/// to an empty stack, opens a new version; every other write replaces the
/// value of the top version. The extrinsic is then noted in the top version.
pub open spec fn stack_write(
    stack: Seq<Version>,
    value: Option<Seq<u8>>,
    first_write_in_tx: bool,
    at_extrinsic: Option<u32>,
) -> Seq<Version> {
    let placed = if first_write_in_tx || stack.len() == 0 {
        stack.push(fresh_version(value))
    } else {
        with_top_value(stack, value)
    };
    with_top_extrinsic(placed, at_extrinsic)
}

/// The top version folded into the one below it: the lower version takes the
/// value of the top one and the extrinsics of both.
pub open spec fn stack_fold_top(stack: Seq<Version>) -> Seq<Version> {
    let top = stack.last();
    let below = stack[stack.len() - 2];
    stack.drop_last().drop_last().push(
        Version { value: top.value, extrinsics: below.extrinsics.union(top.extrinsics) },
    )
}

/// The value that the current scope sees.
pub open spec fn visible(stack: Seq<Version>) -> Option<Seq<u8>> {
    stack.last().value
}

/// All extrinsics named by any version of the stack.
pub open spec fn all_extrinsics(stack: Seq<Version>) -> Set<u32> {
    Set::new(|e: u32| exists|i: int| 0 <= i < stack.len() && #[trigger] stack[i].extrinsics.contains(e))
}

/// The extrinsics of the stack as they are walked: version by version from
/// the oldest, ascending within each version.
pub open spec fn written_indices(stack: Seq<Version>) -> Seq<u32>
    decreases stack.len(),
{
    if stack.len() == 0 {
        Seq::empty()
    } else {
        written_indices(stack.drop_last()) + ascending_listing(stack.last().extrinsics)
    }
}

/// Every version names a set of extrinsics that has an ascending listing.
pub open spec fn listable(stack: Seq<Version>) -> bool {
    forall|i: int|
        0 <= i < stack.len() ==> lists_ascending(
            ascending_listing(#[trigger] stack[i].extrinsics),
            stack[i].extrinsics,
        )
}

/// The members of a concatenation are the members of its two parts.
pub proof fn lemma_concat_members(a: Seq<u32>, b: Seq<u32>)
    ensures
        (a + b).to_set() == a.to_set().union(b.to_set()),
{
    let c = a + b;
    assert forall|x: u32| c.to_set().contains(x) == a.to_set().union(b.to_set()).contains(x) by {
        if c.contains(x) {
            let k = choose|k: int| 0 <= k < c.len() && c[k] == x;
            if k < a.len() {
                assert(a[k] == x);
            } else {
                assert(b[k - a.len()] == x);
            }
        }
        if a.contains(x) {
            let k = choose|k: int| 0 <= k < a.len() && a[k] == x;
            assert(c[k] == x);
        }
        if b.contains(x) {
            let k = choose|k: int| 0 <= k < b.len() && b[k] == x;
            assert(c[k + a.len()] == x);
        }
    }
    assert(c.to_set() =~= a.to_set().union(b.to_set()));
}

/// Walking the versions of a stack meets exactly the extrinsics that some
/// version names.
pub proof fn lemma_written_indices_cover(stack: Seq<Version>)
    requires
        listable(stack),
    ensures
        written_indices(stack).to_set() == all_extrinsics(stack),
    decreases stack.len(),
{
    if stack.len() == 0 {
        assert(written_indices(stack).to_set() =~= all_extrinsics(stack));
    } else {
        let rest = stack.drop_last();
        let top = stack.last();
        assert forall|i: int| 0 <= i < rest.len() implies lists_ascending(
            ascending_listing(#[trigger] rest[i].extrinsics),
            rest[i].extrinsics,
        ) by {
            assert(rest[i] == stack[i]);
        }
        lemma_written_indices_cover(rest);
        lemma_concat_members(written_indices(rest), ascending_listing(top.extrinsics));
        assert forall|e: u32| all_extrinsics(stack).contains(e) == all_extrinsics(rest).union(
            top.extrinsics,
        ).contains(e) by {
            if all_extrinsics(stack).contains(e) {
                let i = choose|i: int| 0 <= i < stack.len() && #[trigger] stack[i].extrinsics.contains(e);
                if i < rest.len() {
                    assert(rest[i].extrinsics.contains(e));
                }
            }
            if all_extrinsics(rest).contains(e) {
                let i = choose|i: int| 0 <= i < rest.len() && #[trigger] rest[i].extrinsics.contains(e);
                assert(stack[i].extrinsics.contains(e));
            }
            if top.extrinsics.contains(e) {
                assert(stack[stack.len() - 1].extrinsics.contains(e));
            }
        }
        assert(all_extrinsics(stack) =~= all_extrinsics(rest).union(top.extrinsics));
    }
}

/// In how many of the dirty sets `key` occurs.
pub open spec fn count_dirty(dirty: Seq<Set<Seq<u8>>>, key: Seq<u8>) -> nat
    decreases dirty.len(),
{
    if dirty.len() == 0 {
        0
    } else {
        count_dirty(dirty.drop_last(), key) + if dirty.last().contains(key) {
            1nat
        } else {
            0nat
        }
    }
}

/// Whether `key` is not yet in the innermost of the dirty sets. Where there
/// is no dirty set, this is false.
pub open spec fn is_first_write(dirty: Seq<Set<Seq<u8>>>, key: Seq<u8>) -> bool {
    dirty.len() > 0 && !dirty.last().contains(key)
}

/// The dirty sets with `keys` added to the innermost one, if there is one.
pub open spec fn mark(dirty: Seq<Set<Seq<u8>>>, keys: Set<Seq<u8>>) -> Seq<Set<Seq<u8>>> {
    if dirty.len() == 0 {
        dirty
    } else {
        dirty.update(dirty.len() - 1, dirty.last().union(keys))
    }
}

/// The state of an overlay.
pub struct Overlay {
    /// The version stack of every key that has pending changes.
    pub changes: Map<Seq<u8>, Seq<Version>>,
    /// For each open transaction, outermost first, the keys written in it.
    pub dirty: Seq<Set<Seq<u8>>>,
}

impl Overlay {
    /// The overlay without changes and with `depth` open transactions.
    pub open spec fn new_at_depth(depth: nat) -> Overlay {
        Overlay { changes: Map::empty(), dirty: Seq::new(depth, |i: int| Set::empty()) }
    }

    /// The number of open transactions.
    pub open spec fn depth(self) -> nat {
        self.dirty.len()
    }

    /// Whether `key` has pending changes.
    pub open spec fn has(self, key: Seq<u8>) -> bool {
        self.changes.dom().contains(key)
    }

    /// The version stack of `key`; empty where the key has no pending changes.
    pub open spec fn stack_of(self, key: Seq<u8>) -> Seq<Version> {
        if self.has(key) {
            self.changes[key]
        } else {
            Seq::empty()
        }
    }

    /// Whether a write to `key` would be the first one to it in the innermost
    /// open transaction. Outside of any transaction no write is.
    pub open spec fn first_write(self, key: Seq<u8>) -> bool {
        is_first_write(self.dirty, key)
    }

    /// The dirty sets after the keys in `keys` were written in the innermost
    /// open transaction, if there is one.
    pub open spec fn marked(self, keys: Set<Seq<u8>>) -> Seq<Set<Seq<u8>>> {
        mark(self.dirty, keys)
    }

    /// The overlay after `value` was written to `key`.
    pub open spec fn set(self, key: Seq<u8>, value: Option<Seq<u8>>, at: Option<u32>) -> Overlay {
        Overlay {
            changes: self.changes.insert(
                key,
                stack_write(self.stack_of(key), value, self.first_write(key), at),
            ),
            dirty: self.marked(Set::empty().insert(key)),
        }
    }

    /// The version stack of `key` made ready for a change in place: a key
    /// without pending changes starts out with `init`, and the first write of
    /// a transaction opens a version that repeats the visible value.
    pub open spec fn touched_stack(self, key: Seq<u8>, init: Seq<u8>, at: Option<u32>) -> Seq<
        Version,
    > {
        let present = if self.has(key) {
            self.changes[key]
        } else {
            Seq::empty().push(Version { value: Some(init), extrinsics: optional_index(at) })
        };
        if self.first_write(key) {
            stack_write(present, visible(present), true, at)
        } else {
            present
        }
    }

    /// The overlay after `key` was made ready for a change in place and its
    /// visible value was then set to `written`.
    pub open spec fn modify(
        self,
        key: Seq<u8>,
        init: Seq<u8>,
        at: Option<u32>,
        written: Option<Seq<u8>>,
    ) -> Overlay {
        Overlay {
            changes: self.changes.insert(
                key,
                with_top_value(self.touched_stack(key, init, at), written),
            ),
            dirty: self.marked(Set::empty().insert(key)),
        }
    }

    /// The overlay after a deletion was written to every key of `keys` that
    /// has pending changes. Other keys are left as they are.
    pub open spec fn clear(self, keys: Set<Seq<u8>>, at: Option<u32>) -> Overlay {
        Overlay {
            changes: Map::new(
                |k: Seq<u8>| self.has(k),
                |k: Seq<u8>|
                    if keys.contains(k) {
                        stack_write(self.changes[k], None, self.first_write(k), at)
                    } else {
                        self.changes[k]
                    },
            ),
            dirty: self.marked(keys.intersect(self.changes.dom())),
        }
    }

    /// The overlay after a transaction was opened.
    pub open spec fn start_transaction(self) -> Overlay {
        Overlay { changes: self.changes, dirty: self.dirty.push(Set::empty()) }
    }

    /// The overlay after the innermost transaction was closed and the keys in
    /// `done` were rolled back: each of them loses its top version, and a key
    /// that is left without versions leaves the overlay.
    pub open spec fn rollback_keys(self, done: Set<Seq<u8>>) -> Overlay {
        Overlay {
            changes: Map::new(
                |k: Seq<u8>| self.has(k) && !(done.contains(k) && self.changes[k].len() <= 1),
                |k: Seq<u8>|
                    if done.contains(k) {
                        self.changes[k].drop_last()
                    } else {
                        self.changes[k]
                    },
            ),
            dirty: self.dirty.drop_last(),
        }
    }

    /// The overlay after the innermost transaction was rolled back: every key
    /// written in it is rolled back.
    pub open spec fn rollback_transaction(self) -> Overlay {
        self.rollback_keys(self.dirty.last())
    }

    /// Whether the scope that encloses the innermost transaction already
    /// holds a version of `key`: the parent transaction has written it, or,
    /// without a parent, a version lies below the one of the transaction.
    pub open spec fn has_predecessor(self, key: Seq<u8>) -> bool {
        if self.dirty.len() >= 2 {
            self.dirty[self.dirty.len() - 2].contains(key)
        } else {
            self.changes[key].len() > 1
        }
    }

    /// The overlay after the innermost transaction was closed and the keys in
    /// `done` were committed: of each of them the top version is folded into
    /// the version below where the enclosing scope holds one, and stays as it
    /// is where not. The enclosing transaction, if there is one, takes the
    /// keys over as written in it.
    pub open spec fn commit_keys(self, done: Set<Seq<u8>>) -> Overlay {
        Overlay {
            changes: Map::new(
                |k: Seq<u8>| self.has(k),
                |k: Seq<u8>|
                    if done.contains(k) && self.has_predecessor(k) {
                        stack_fold_top(self.changes[k])
                    } else {
                        self.changes[k]
                    },
            ),
            dirty: mark(self.dirty.drop_last(), done),
        }
    }

    /// The overlay after the innermost transaction was committed: every key
    /// written in it is committed.
    pub open spec fn commit_transaction(self) -> Overlay {
        self.commit_keys(self.dirty.last())
    }

    /// What the overlay hands to the backing store: for every key with pending
    /// changes the visible value, where `None` asks for the key's deletion.
    pub open spec fn committed(self) -> Map<Seq<u8>, Option<Seq<u8>>> {
        Map::new(|k: Seq<u8>| self.has(k), |k: Seq<u8>| visible(self.changes[k]))
    }

    /// The invariant of the overlay: a key named by a dirty set has pending
    /// changes, no version stack is empty, and a stack holds one version for
    /// each open transaction that wrote the key, and at most one more.
    pub open spec fn wf(self) -> bool {
        &&& forall|i: int, k: Seq<u8>|
            0 <= i < self.dirty.len() && #[trigger] self.dirty[i].contains(k) ==> self.has(k)
        &&& forall|k: Seq<u8>| #[trigger]
            self.has(k) ==> {
                &&& self.changes[k].len() >= 1
                &&& count_dirty(self.dirty, k) <= self.changes[k].len() <= count_dirty(self.dirty, k)
                    + 1
            }
    }
}

} // verus!
