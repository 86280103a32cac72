use overlay_changeset::changeset::OverlayedChangeSet;

type Drained = Vec<(Vec<u8>, Option<Vec<u8>>)>;

fn key(text: &str) -> Vec<u8> {
    text.as_bytes().to_vec()
}

#[test]
fn simple_write_then_drain() {
    let mut changeset = OverlayedChangeSet::with_depth(0);
    changeset.set(key("a"), Some(vec![1]), None);
    changeset.set(key("b"), Some(vec![2]), None);
    let expected: Drained = vec![(key("a"), Some(vec![1])), (key("b"), Some(vec![2]))];
    assert_eq!(changeset.drain_commited(), expected);
}

#[test]
fn rollback_discards_changes() {
    let mut changeset = OverlayedChangeSet::with_depth(0);
    changeset.set(key("a"), Some(vec![1]), None);
    changeset.start_transaction();
    changeset.set(key("a"), Some(vec![9]), None);
    changeset.set(key("c"), Some(vec![3]), None);
    assert_eq!(changeset.get(b"a").unwrap().value(), Some(&vec![9]));
    assert_eq!(changeset.get(b"c").unwrap().value(), Some(&vec![3]));
    changeset.rollback_transaction();
    assert_eq!(changeset.transaction_depth(), 0);
    assert!(changeset.get(b"c").is_none());
    let expected: Drained = vec![(key("a"), Some(vec![1]))];
    assert_eq!(changeset.drain_commited(), expected);
}

#[test]
fn commit_merges_into_committed_value() {
    let mut changeset = OverlayedChangeSet::with_depth(0);
    changeset.set(key("a"), Some(vec![1]), Some(0));
    changeset.start_transaction();
    changeset.set(key("a"), Some(vec![2]), Some(1));
    assert_eq!(changeset.get(b"a").unwrap().version_count(), 2);
    changeset.commit_transaction();
    let entry = changeset.get(b"a").unwrap();
    assert_eq!(entry.version_count(), 1);
    assert_eq!(entry.value(), Some(&vec![2]));
    assert_eq!(entry.extrinsics(), vec![0, 1]);
    let expected: Drained = vec![(key("a"), Some(vec![2]))];
    assert_eq!(changeset.drain_commited(), expected);
}

#[test]
fn commit_adopts_when_parent_unchanged() {
    let mut changeset = OverlayedChangeSet::with_depth(0);
    changeset.start_transaction();
    changeset.start_transaction();
    changeset.set(key("x"), Some(vec![7]), None);
    changeset.commit_transaction();
    assert_eq!(changeset.transaction_depth(), 1);
    assert_eq!(changeset.get(b"x").unwrap().version_count(), 1);
    assert_eq!(changeset.get(b"x").unwrap().value(), Some(&vec![7]));
    changeset.rollback_transaction();
    assert!(changeset.is_empty());
    let expected: Drained = vec![];
    assert_eq!(changeset.drain_commited(), expected);
}

#[test]
fn next_change_finds_least_greater_key() {
    let mut changeset = OverlayedChangeSet::with_depth(0);
    changeset.set(key("e"), Some(vec![5]), None);
    changeset.set(key("a"), Some(vec![1]), None);
    changeset.set(key("c"), Some(vec![3]), None);

    let (next, value) = changeset.next_change(b"a").unwrap();
    assert_eq!(next, b"c");
    assert_eq!(value.value(), Some(&vec![3]));

    let (next, value) = changeset.next_change(b"b").unwrap();
    assert_eq!(next, b"c");
    assert_eq!(value.value(), Some(&vec![3]));

    let (next, value) = changeset.next_change(b"").unwrap();
    assert_eq!(next, b"a");
    assert_eq!(value.value(), Some(&vec![1]));

    let (next, _) = changeset.next_change(b"c").unwrap();
    assert_eq!(next, b"e");

    assert!(changeset.next_change(b"e").is_none());
    assert!(changeset.next_change(b"zz").is_none());
}

#[test]
fn clear_with_predicate() {
    let mut changeset = OverlayedChangeSet::with_depth(0);
    changeset.set(key("a"), Some(vec![1]), None);
    changeset.set(key("b"), Some(vec![2]), None);
    changeset.set(key("c"), Some(vec![3]), None);
    changeset.clear(|k, _| k != b"b", None);
    let expected: Drained = vec![(key("a"), None), (key("b"), Some(vec![2])), (key("c"), None)];
    assert_eq!(changeset.drain_commited(), expected);
}
