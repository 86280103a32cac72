use overlay_changeset::bytes::{compare_keys, KeyOrder};
use overlay_changeset::changeset::OverlayedChangeSet;
use overlay_changeset::index_set::{extend_indices, insert_index};
use overlay_changeset::keys::find_key;
use overlay_changeset::value::{InnerValue, OverlayedValue};

type Drained = Vec<(Vec<u8>, Option<Vec<u8>>)>;

fn key(text: &str) -> Vec<u8> {
    text.as_bytes().to_vec()
}

#[test]
fn keys_compare_lexicographically() {
    assert_eq!(compare_keys(b"", b""), KeyOrder::Same);
    assert_eq!(compare_keys(b"", b"a"), KeyOrder::Before);
    assert_eq!(compare_keys(b"a", b""), KeyOrder::After);
    assert_eq!(compare_keys(b"a", b"ab"), KeyOrder::Before);
    assert_eq!(compare_keys(b"ab", b"b"), KeyOrder::Before);
    assert_eq!(compare_keys(b"b", b"ab"), KeyOrder::After);
    assert_eq!(compare_keys(b"abc", b"abc"), KeyOrder::Same);
    assert_eq!(compare_keys(&[0, 255], &[1]), KeyOrder::Before);
    assert_eq!(compare_keys(&[200], &[100, 100]), KeyOrder::After);
}

#[test]
fn find_key_gives_index_or_insertion_point() {
    let keys = vec![key("b"), key("d"), key("f")];
    assert_eq!(find_key(&keys, b"a"), Err(0));
    assert_eq!(find_key(&keys, b"b"), Ok(0));
    assert_eq!(find_key(&keys, b"c"), Err(1));
    assert_eq!(find_key(&keys, b"d"), Ok(1));
    assert_eq!(find_key(&keys, b"da"), Err(2));
    assert_eq!(find_key(&keys, b"f"), Ok(2));
    assert_eq!(find_key(&keys, b"g"), Err(3));
    assert_eq!(find_key(&vec![], b"a"), Err(0));
}

#[test]
fn indices_stay_ascending_and_unique() {
    let mut indices: Vec<u32> = vec![];
    for index in [5, 1, 9, 5, 0, 9, 3] {
        insert_index(&mut indices, index);
    }
    assert_eq!(indices, vec![0, 1, 3, 5, 9]);
    extend_indices(&mut indices, &vec![2, 3, 10, 0]);
    assert_eq!(indices, vec![0, 1, 2, 3, 5, 9, 10]);
    extend_indices(&mut indices, &vec![]);
    assert_eq!(indices, vec![0, 1, 2, 3, 5, 9, 10]);
}

#[test]
fn changes_and_drain_are_ordered_by_key() {
    let mut changeset = OverlayedChangeSet::with_depth(0);
    for (text, byte) in [("m", 1), ("b", 2), ("za", 3), ("", 4), ("ab", 5), ("a", 6), ("z", 7)] {
        changeset.set(key(text), Some(vec![byte]), None);
    }
    let listed: Vec<Vec<u8>> = changeset.changes().into_iter().map(|(k, _)| k.clone()).collect();
    let ordered = vec![key(""), key("a"), key("ab"), key("b"), key("m"), key("z"), key("za")];
    assert_eq!(listed, ordered);
    let expected: Drained = vec![
        (key(""), Some(vec![4])),
        (key("a"), Some(vec![6])),
        (key("ab"), Some(vec![5])),
        (key("b"), Some(vec![2])),
        (key("m"), Some(vec![1])),
        (key("z"), Some(vec![7])),
        (key("za"), Some(vec![3])),
    ];
    assert_eq!(changeset.drain_commited(), expected);
}

#[test]
fn next_change_walks_all_keys_in_order() {
    let mut changeset = OverlayedChangeSet::with_depth(0);
    for text in ["d", "a", "c", "b"] {
        changeset.set(key(text), Some(text.as_bytes().to_vec()), None);
    }
    let mut walked: Vec<Vec<u8>> = vec![];
    let mut at: Vec<u8> = vec![];
    while let Some((next, value)) = changeset.next_change(&at) {
        assert_eq!(value.value(), Some(&next.to_vec()));
        walked.push(next.to_vec());
        at = next.to_vec();
    }
    assert_eq!(walked, vec![key("a"), key("b"), key("c"), key("d")]);
}

#[test]
fn extrinsics_are_listed_once_in_order_of_first_occurrence() {
    let mut changeset = OverlayedChangeSet::with_depth(0);
    changeset.set(key("k"), Some(vec![1]), Some(7));
    changeset.set(key("k"), Some(vec![1]), Some(3));
    changeset.start_transaction();
    changeset.set(key("k"), Some(vec![2]), Some(7));
    changeset.set(key("k"), Some(vec![2]), Some(1));
    changeset.start_transaction();
    changeset.set(key("k"), Some(vec![3]), Some(3));
    changeset.set(key("k"), Some(vec![3]), Some(0));
    // Versions name {3, 7}, {1, 7} and {0, 3}.
    assert_eq!(changeset.get(b"k").unwrap().extrinsics(), vec![3, 7, 1, 0]);
    changeset.commit_transaction();
    // Versions name {3, 7} and {0, 1, 3, 7}.
    assert_eq!(changeset.get(b"k").unwrap().extrinsics(), vec![3, 7, 0, 1]);
    changeset.commit_transaction();
    assert_eq!(changeset.get(b"k").unwrap().extrinsics(), vec![0, 1, 3, 7]);
}

#[test]
fn extrinsics_are_empty_without_index() {
    let mut changeset = OverlayedChangeSet::with_depth(1);
    changeset.set(key("k"), Some(vec![1]), None);
    assert_eq!(changeset.get(b"k").unwrap().extrinsics(), Vec::<u32>::new());
}

#[test]
fn modify_creates_initial_value_and_hands_out_the_slot() {
    let mut changeset = OverlayedChangeSet::with_depth(0);
    {
        let slot = changeset.modify(key("k"), || vec![1, 2], Some(4));
        assert_eq!(slot, &mut Some(vec![1, 2]));
        if let Some(bytes) = slot {
            bytes.push(3);
        }
    }
    let entry = changeset.get(b"k").unwrap();
    assert_eq!(entry.value(), Some(&vec![1, 2, 3]));
    assert_eq!(entry.version_count(), 1);
    assert_eq!(entry.extrinsics(), vec![4]);

    // A key with pending changes does not call `init`, and outside of a
    // transaction the extrinsic is not noted.
    {
        let slot = changeset.modify(key("k"), || unreachable!(), Some(8));
        assert_eq!(slot, &mut Some(vec![1, 2, 3]));
        *slot = None;
    }
    let entry = changeset.get(b"k").unwrap();
    assert_eq!(entry.value(), None);
    assert_eq!(entry.extrinsics(), vec![4]);
}

#[test]
fn modify_in_transaction_opens_a_version_once() {
    let mut changeset = OverlayedChangeSet::with_depth(0);
    changeset.set(key("k"), Some(vec![1]), Some(0));
    changeset.start_transaction();
    *changeset.modify(key("k"), || vec![], Some(1)) = Some(vec![2]);
    *changeset.modify(key("k"), || vec![], Some(2)) = Some(vec![3]);
    let entry = changeset.get(b"k").unwrap();
    assert_eq!(entry.version_count(), 2);
    assert_eq!(entry.value(), Some(&vec![3]));
    assert_eq!(entry.extrinsics(), vec![0, 1]);
    changeset.rollback_transaction();
    let entry = changeset.get(b"k").unwrap();
    assert_eq!(entry.version_count(), 1);
    assert_eq!(entry.value(), Some(&vec![1]));
    assert_eq!(entry.extrinsics(), vec![0]);
}

#[test]
fn modify_or_init_starts_from_the_given_value() {
    let mut changeset = OverlayedChangeSet::with_depth(1);
    assert_eq!(changeset.modify_or_init(key("k"), vec![7], None), &mut Some(vec![7]));
    let entry = changeset.get(b"k").unwrap();
    assert_eq!(entry.version_count(), 2);
    assert_eq!(entry.value(), Some(&vec![7]));
    assert_eq!(changeset.modify_or_init(key("k"), vec![8], None), &mut Some(vec![7]));
    assert_eq!(changeset.get(b"k").unwrap().version_count(), 2);
}

#[test]
fn clear_touches_only_keys_of_the_overlay() {
    let mut changeset = OverlayedChangeSet::with_depth(0);
    changeset.set(key("a"), Some(vec![1]), None);
    changeset.set(key("b"), None, None);
    changeset.start_transaction();
    changeset.set(key("c"), Some(vec![3]), None);
    let mut offered: Vec<Vec<u8>> = vec![];
    let seen = std::cell::RefCell::new(&mut offered);
    changeset.clear(
        |k, v| {
            seen.borrow_mut().push(k.to_vec());
            v.value().is_some()
        },
        Some(6),
    );
    assert_eq!(offered, vec![key("a"), key("b"), key("c")]);
    assert!(changeset.get(b"missing").is_none());
    let a = changeset.get(b"a").unwrap();
    assert_eq!((a.value(), a.version_count(), a.extrinsics()), (None, 2, vec![6]));
    let b = changeset.get(b"b").unwrap();
    assert_eq!((b.value(), b.version_count(), b.extrinsics()), (None, 1, vec![]));
    let c = changeset.get(b"c").unwrap();
    assert_eq!((c.value(), c.version_count(), c.extrinsics()), (None, 1, vec![6]));
    changeset.rollback_transaction();
    let expected: Drained = vec![(key("a"), Some(vec![1])), (key("b"), None)];
    assert_eq!(changeset.drain_commited(), expected);
}

#[test]
fn clear_flagged_goes_by_position() {
    let mut changeset = OverlayedChangeSet::with_depth(0);
    changeset.set(key("c"), Some(vec![3]), None);
    changeset.set(key("a"), Some(vec![1]), None);
    changeset.set(key("b"), Some(vec![2]), None);
    changeset.clear_flagged(&vec![false, true], None);
    let expected: Drained = vec![(key("a"), Some(vec![1])), (key("b"), None), (key("c"), Some(vec![3]))];
    assert_eq!(changeset.clone().drain_commited(), expected);
    changeset.clear_flagged(&vec![true, false, true, true], None);
    let expected: Drained = vec![(key("a"), None), (key("b"), None), (key("c"), None)];
    assert_eq!(changeset.drain_commited(), expected);
}

#[test]
fn overlayed_value_writes_pops_and_folds() {
    let mut changeset = OverlayedChangeSet::with_depth(0);
    changeset.set(key("k"), Some(vec![1]), Some(1));
    let mut value = changeset.get(b"k").unwrap().clone();

    value.set(Some(vec![2]), false, Some(2));
    assert_eq!(value.version_count(), 1);
    assert_eq!(value.value(), Some(&vec![2]));

    value.set(None, true, Some(3));
    assert_eq!(value.version_count(), 2);
    assert_eq!(value.value(), None);
    assert_eq!(value.extrinsics(), vec![1, 2, 3]);

    *value.value_mut() = Some(vec![4]);
    assert_eq!(value.value(), Some(&vec![4]));

    value.set(Some(vec![5]), true, Some(1));
    value.fold_top();
    assert_eq!(value.version_count(), 2);
    assert_eq!(value.value(), Some(&vec![5]));
    assert_eq!(value.extrinsics(), vec![1, 2, 3]);

    let popped = value.pop_transaction();
    assert_eq!(popped.into_value(), Some(vec![5]));
    assert_eq!(value.version_count(), 1);
    assert_eq!(value.value(), Some(&vec![2]));
    assert_eq!(value.extrinsics(), vec![1, 2]);
}

#[test]
fn inner_value_starts_without_extrinsics() {
    assert_eq!(InnerValue::new(Some(vec![1])).into_value(), Some(vec![1]));
    assert_eq!(InnerValue::new(None).into_value(), None);
}

#[test]
fn default_values_hold_nothing() {
    let empty = OverlayedValue::default();
    assert_eq!(empty.version_count(), 0);
    assert_eq!(empty.extrinsics(), Vec::<u32>::new());
    assert_eq!(InnerValue::default().into_value(), None);

    let mut written = OverlayedValue::default();
    written.set(Some(vec![1]), false, Some(2));
    assert_eq!(written.version_count(), 1);
    assert_eq!(written.value(), Some(&vec![1]));
    assert_eq!(written.extrinsics(), vec![2]);
}
