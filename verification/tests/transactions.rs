use overlay_changeset::changeset::{insert_dirty, OverlayedChangeSet};

type Drained = Vec<(Vec<u8>, Option<Vec<u8>>)>;

/// What can be observed of a changeset: depth, and per key the visible value,
/// the number of versions and the extrinsics.
type Observed = (usize, Vec<(Vec<u8>, Option<Vec<u8>>, usize, Vec<u32>)>);

fn key(text: &str) -> Vec<u8> {
    text.as_bytes().to_vec()
}

fn observe(changeset: &OverlayedChangeSet) -> Observed {
    let entries = changeset
        .changes()
        .into_iter()
        .map(|(k, v)| (k.clone(), v.value().cloned(), v.version_count(), v.extrinsics()))
        .collect();
    (changeset.transaction_depth(), entries)
}

#[test]
fn with_depth_opens_transactions_up_front() {
    let preloaded = OverlayedChangeSet::with_depth(3);
    assert_eq!(preloaded.transaction_depth(), 3);
    assert!(preloaded.is_empty());

    let mut started = OverlayedChangeSet::with_depth(0);
    started.start_transaction();
    started.start_transaction();
    started.start_transaction();
    assert_eq!(observe(&preloaded), observe(&started));
}

#[test]
fn empty_changeset_answers_with_nothing() {
    let changeset = OverlayedChangeSet::with_depth(0);
    assert!(changeset.is_empty());
    assert_eq!(changeset.transaction_depth(), 0);
    assert!(changeset.get(b"missing").is_none());
    assert!(changeset.next_change(b"").is_none());
    assert!(changeset.changes().is_empty());
    let expected: Drained = vec![];
    assert_eq!(changeset.drain_commited(), expected);
}

#[test]
fn write_without_transaction_overwrites_in_place() {
    let mut changeset = OverlayedChangeSet::with_depth(0);
    changeset.set(key("k"), Some(vec![1]), Some(4));
    changeset.set(key("k"), Some(vec![2]), Some(2));
    changeset.set(key("k"), None, Some(4));
    let entry = changeset.get(b"k").unwrap();
    assert_eq!(entry.version_count(), 1);
    assert_eq!(entry.value(), None);
    assert_eq!(entry.extrinsics(), vec![2, 4]);
    assert!(!changeset.is_empty());
}

#[test]
fn one_version_per_writing_transaction() {
    let mut changeset = OverlayedChangeSet::with_depth(0);
    changeset.set(key("k"), Some(vec![0]), None);
    changeset.start_transaction();
    changeset.start_transaction();
    changeset.set(key("k"), Some(vec![1]), None);
    changeset.set(key("k"), Some(vec![2]), None);
    assert_eq!(changeset.get(b"k").unwrap().version_count(), 2);
    changeset.start_transaction();
    changeset.set(key("k"), Some(vec![3]), None);
    changeset.set(key("fresh"), Some(vec![9]), None);
    assert_eq!(changeset.get(b"k").unwrap().version_count(), 3);
    assert_eq!(changeset.get(b"fresh").unwrap().version_count(), 1);
    for (_, value) in changeset.changes() {
        assert!(value.version_count() <= 1 + changeset.transaction_depth());
    }
}

#[test]
fn balanced_transactions_return_to_depth_zero() {
    let mut changeset = OverlayedChangeSet::with_depth(0);
    changeset.set(key("a"), Some(vec![1]), None);
    changeset.start_transaction();
    changeset.set(key("b"), Some(vec![2]), None);
    changeset.start_transaction();
    *changeset.modify(key("a"), || vec![0], None) = Some(vec![3]);
    changeset.clear(|k, _| k == b"b", None);
    changeset.commit_transaction();
    changeset.start_transaction();
    changeset.set(key("c"), Some(vec![4]), None);
    changeset.rollback_transaction();
    changeset.commit_transaction();
    assert_eq!(changeset.transaction_depth(), 0);
    let expected: Drained = vec![(key("a"), Some(vec![3])), (key("b"), None)];
    assert_eq!(changeset.drain_commited(), expected);
}

#[test]
fn rollback_leaves_the_earlier_state() {
    let mut changeset = OverlayedChangeSet::with_depth(1);
    changeset.set(key("kept"), Some(vec![1]), Some(7));
    let before = observe(&changeset);
    changeset.start_transaction();
    changeset.set(key("new"), Some(vec![2]), Some(1));
    changeset.set(key("other"), None, None);
    changeset.set(key("kept"), Some(vec![3]), Some(2));
    *changeset.modify(key("kept"), || vec![0], Some(9)) = None;
    changeset.clear(|_, _| true, Some(5));
    changeset.rollback_transaction();
    assert_eq!(observe(&changeset), before);
}

#[test]
fn rollback_keeps_the_initial_value_of_a_change_in_place() {
    let mut changeset = OverlayedChangeSet::with_depth(0);
    changeset.start_transaction();
    *changeset.modify(key("k"), || vec![1, 2], Some(3)) = Some(vec![9]);
    let entry = changeset.get(b"k").unwrap();
    assert_eq!(entry.version_count(), 2);
    assert_eq!(entry.value(), Some(&vec![9]));
    changeset.rollback_transaction();
    let entry = changeset.get(b"k").unwrap();
    assert_eq!(entry.version_count(), 1);
    assert_eq!(entry.value(), Some(&vec![1, 2]));
    assert_eq!(entry.extrinsics(), vec![3]);
}

#[test]
fn commit_of_outermost_transaction_equals_inline_writes() {
    let mut inline = OverlayedChangeSet::with_depth(0);
    let mut scoped = OverlayedChangeSet::with_depth(0);
    for changeset in [&mut inline, &mut scoped] {
        changeset.set(key("a"), Some(vec![1]), Some(0));
        changeset.set(key("b"), Some(vec![2]), Some(0));
    }
    scoped.start_transaction();
    for changeset in [&mut inline, &mut scoped] {
        changeset.set(key("a"), Some(vec![3]), Some(1));
        changeset.set(key("c"), None, Some(2));
        changeset.set(key("c"), Some(vec![4]), Some(3));
        *changeset.modify(key("d"), || vec![5], Some(4)) = Some(vec![6]);
        changeset.clear(|k, _| k == b"b", Some(5));
    }
    scoped.commit_transaction();
    assert_eq!(observe(&scoped), observe(&inline));
    let expected: Drained = vec![
        (key("a"), Some(vec![3])),
        (key("b"), None),
        (key("c"), Some(vec![4])),
        (key("d"), Some(vec![6])),
    ];
    assert_eq!(scoped.drain_commited(), expected);
    assert_eq!(inline.drain_commited(), expected);
}

#[test]
fn commit_into_parent_merges_or_adopts_per_key() {
    let mut changeset = OverlayedChangeSet::with_depth(0);
    changeset.start_transaction();
    changeset.set(key("both"), Some(vec![1]), Some(1));
    changeset.start_transaction();
    changeset.set(key("both"), Some(vec![2]), Some(2));
    changeset.set(key("child"), Some(vec![3]), Some(3));
    assert_eq!(changeset.get(b"both").unwrap().version_count(), 2);
    changeset.commit_transaction();
    assert_eq!(changeset.transaction_depth(), 1);
    let both = changeset.get(b"both").unwrap();
    assert_eq!(both.version_count(), 1);
    assert_eq!(both.value(), Some(&vec![2]));
    assert_eq!(both.extrinsics(), vec![1, 2]);
    let child = changeset.get(b"child").unwrap();
    assert_eq!(child.version_count(), 1);
    assert_eq!(child.value(), Some(&vec![3]));
    // The parent took both keys over: rolling it back drops them.
    changeset.rollback_transaction();
    assert!(changeset.is_empty());
}

#[test]
fn commit_settles_every_key_of_the_transaction() {
    let mut changeset = OverlayedChangeSet::with_depth(0);
    changeset.set(key("a"), Some(vec![1]), None);
    changeset.set(key("c"), Some(vec![1]), None);
    changeset.start_transaction();
    changeset.set(key("a"), Some(vec![2]), None);
    changeset.set(key("b"), Some(vec![2]), None);
    changeset.set(key("c"), Some(vec![2]), None);
    changeset.set(key("d"), Some(vec![2]), None);
    changeset.commit_transaction();
    for (_, value) in changeset.changes() {
        assert_eq!(value.version_count(), 1);
        assert_eq!(value.value(), Some(&vec![2]));
    }
    assert_eq!(changeset.changes().len(), 4);
}

#[test]
fn close_transaction_rolls_back_or_commits() {
    let mut changeset = OverlayedChangeSet::with_depth(2);
    changeset.set(key("k"), Some(vec![1]), None);
    changeset.close_transaction(false);
    assert_eq!(changeset.transaction_depth(), 1);
    assert_eq!(changeset.get(b"k").unwrap().value(), Some(&vec![1]));
    changeset.close_transaction(true);
    assert_eq!(changeset.transaction_depth(), 0);
    assert!(changeset.get(b"k").is_none());
}

#[test]
fn tombstone_is_drained_as_deletion() {
    let mut changeset = OverlayedChangeSet::with_depth(0);
    changeset.set(key("stored"), Some(vec![1]), None);
    changeset.start_transaction();
    changeset.start_transaction();
    changeset.set(key("stored"), None, None);
    changeset.set(key("unseen"), None, None);
    changeset.commit_transaction();
    changeset.commit_transaction();
    let expected: Drained = vec![(key("stored"), None), (key("unseen"), None)];
    assert_eq!(changeset.drain_commited(), expected);
}

#[test]
fn insert_dirty_reports_first_write() {
    let mut none: Vec<Vec<Vec<u8>>> = vec![];
    assert!(!insert_dirty(&mut none, key("k")));
    assert!(none.is_empty());

    let mut sets: Vec<Vec<Vec<u8>>> = vec![vec![key("k")], vec![]];
    assert!(insert_dirty(&mut sets, key("k")));
    assert!(!insert_dirty(&mut sets, key("k")));
    assert!(insert_dirty(&mut sets, key("a")));
    assert!(insert_dirty(&mut sets, key("z")));
    assert_eq!(sets, vec![vec![key("k")], vec![key("a"), key("k"), key("z")]]);
}

#[test]
fn default_is_empty_at_depth_zero() {
    let changeset = OverlayedChangeSet::default();
    assert!(changeset.is_empty());
    assert_eq!(changeset.transaction_depth(), 0);
    assert_eq!(observe(&changeset), observe(&OverlayedChangeSet::with_depth(0)));
}

#[test]
fn change_in_place_records_its_index_inside_a_transaction_alone() {
    let mut inline = OverlayedChangeSet::with_depth(0);
    let mut scoped = OverlayedChangeSet::with_depth(0);
    for changeset in [&mut inline, &mut scoped] {
        changeset.set(key("k"), Some(vec![1]), Some(0));
    }
    scoped.start_transaction();
    for changeset in [&mut inline, &mut scoped] {
        *changeset.modify(key("k"), || vec![], Some(5)) = Some(vec![2]);
    }
    scoped.commit_transaction();
    // Depth, keys and values agree; the extrinsics do not.
    assert_eq!(scoped.transaction_depth(), 0);
    assert_eq!(scoped.get(b"k").unwrap().extrinsics(), vec![0, 5]);
    assert_eq!(inline.get(b"k").unwrap().extrinsics(), vec![0]);
    assert_eq!(scoped.clone().drain_commited(), inline.clone().drain_commited());

    // Once a later write names the index outside as well, all agrees again.
    let mut inline = OverlayedChangeSet::with_depth(0);
    let mut scoped = OverlayedChangeSet::with_depth(0);
    for changeset in [&mut inline, &mut scoped] {
        changeset.set(key("k"), Some(vec![1]), Some(0));
    }
    scoped.start_transaction();
    for changeset in [&mut inline, &mut scoped] {
        *changeset.modify(key("k"), || vec![], Some(5)) = Some(vec![2]);
        changeset.set(key("k"), Some(vec![3]), Some(5));
    }
    scoped.commit_transaction();
    assert_eq!(observe(&scoped), observe(&inline));
}

#[test]
fn clear_and_modify_record_their_index_like_set() {
    let mut changeset = OverlayedChangeSet::with_depth(0);
    changeset.set(key("a"), Some(vec![1]), Some(1));
    changeset.start_transaction();
    changeset.clear(|k, _| k == b"a", Some(2));
    *changeset.modify(key("b"), || vec![7], Some(3)) = Some(vec![8]);
    changeset.start_transaction();
    *changeset.modify(key("a"), || vec![], Some(4)) = Some(vec![9]);
    *changeset.modify(key("a"), || vec![], Some(5)) = None;
    changeset.clear(|k, _| k == b"missing", Some(6));
    changeset.commit_transaction();
    changeset.commit_transaction();
    assert_eq!(changeset.get(b"a").unwrap().extrinsics(), vec![1, 2, 4]);
    assert_eq!(changeset.get(b"b").unwrap().extrinsics(), vec![3]);
}
