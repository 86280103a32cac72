//! Sorted key vectors: the order invariant and the search that relies on it.

use vstd::prelude::*;
use crate::bytes::{compare_keys, lex_lt, lemma_lex_transitive, lemma_lex_asymmetric, KeyOrder};

verus! {

/// The byte strings held by a vector of keys, in the same order.
pub open spec fn key_views(keys: Seq<Vec<u8>>) -> Seq<Seq<u8>> {
    Seq::new(keys.len(), |i: int| keys[i]@)
}

/// Every key comes strictly before all keys after it.
pub open spec fn strictly_increasing(s: Seq<Seq<u8>>) -> bool {
    forall|i: int, j: int| 0 <= i < j < s.len() ==> lex_lt(#[trigger] s[i], #[trigger] s[j])
}

/// `i` is the place of `key` in `s`: everything before `i` comes before
/// `key`, everything from `i` on comes after it.
pub open spec fn splits_at(s: Seq<Seq<u8>>, key: Seq<u8>, i: int) -> bool {
    &&& 0 <= i <= s.len()
    &&& forall|j: int| 0 <= j < i ==> lex_lt(#[trigger] s[j], key)
    &&& forall|j: int| i <= j < s.len() ==> lex_lt(key, #[trigger] s[j])
}

/// A strictly increasing sequence holds no key twice.
pub proof fn lemma_increasing_no_duplicates(s: Seq<Seq<u8>>)
    requires
        strictly_increasing(s),
    ensures
        s.no_duplicates(),
{
    assert forall|i: int, j: int| 0 <= i < s.len() && 0 <= j < s.len() && i != j implies s[i]
        != s[j] by {
        if i < j {
            lemma_lex_asymmetric(s[i], s[j]);
        } else {
            lemma_lex_asymmetric(s[j], s[i]);
        }
    }
}

/// A key that has a place between the entries of `s` is not one of them.
pub proof fn lemma_split_means_absent(s: Seq<Seq<u8>>, key: Seq<u8>, i: int)
    requires
        splits_at(s, key, i),
    ensures
        !s.contains(key),
{
    if s.contains(key) {
        let j = choose|j: int| 0 <= j < s.len() && s[j] == key;
        if j < i {
            lemma_lex_asymmetric(s[j], key);
        } else {
            lemma_lex_asymmetric(key, s[j]);
        }
    }
}

/// Inserting a key at its place keeps the sequence strictly increasing.
pub proof fn lemma_insert_keeps_order(s: Seq<Seq<u8>>, key: Seq<u8>, i: int)
    requires
        strictly_increasing(s),
        splits_at(s, key, i),
    ensures
        strictly_increasing(s.insert(i, key)),
{
    let t = s.insert(i, key);
    assert forall|a: int, b: int| 0 <= a < b < t.len() implies lex_lt(
        #[trigger] t[a],
        #[trigger] t[b],
    ) by {
        if b < i {
            assert(t[a] == s[a] && t[b] == s[b]);
        } else if b == i {
            assert(t[a] == s[a]);
        } else if a < i {
            assert(t[a] == s[a] && t[b] == s[b - 1]);
            lemma_lex_transitive(s[a], key, s[b - 1]);
        } else if a == i {
            assert(t[b] == s[b - 1]);
        } else {
            assert(t[a] == s[a - 1] && t[b] == s[b - 1]);
        }
    }
}

/// Inserting a key adds it to the members of the sequence and changes no
/// other membership.
pub proof fn lemma_insert_members(s: Seq<Seq<u8>>, key: Seq<u8>, i: int)
    requires
        0 <= i <= s.len(),
    ensures
        s.insert(i, key).to_set() == s.to_set().insert(key),
{
    let t = s.insert(i, key);
    assert forall|k: Seq<u8>| t.to_set().contains(k) == s.to_set().insert(key).contains(k) by {
        if t.contains(k) {
            let j = choose|j: int| 0 <= j < t.len() && t[j] == k;
            if j < i {
                assert(s[j] == k);
            } else if j > i {
                assert(s[j - 1] == k);
            }
        }
        if s.contains(k) {
            let j = choose|j: int| 0 <= j < s.len() && s[j] == k;
            if j < i {
                assert(t[j] == k);
            } else {
                assert(t[j + 1] == k);
            }
        }
        if k == key {
            assert(t[i] == k);
        }
    }
    assert(t.to_set() =~= s.to_set().insert(key));
}

/// Removing an entry keeps the sequence strictly increasing.
pub proof fn lemma_remove_keeps_order(s: Seq<Seq<u8>>, i: int)
    requires
        strictly_increasing(s),
        0 <= i < s.len(),
    ensures
        strictly_increasing(s.remove(i)),
{
    let t = s.remove(i);
    assert forall|a: int, b: int| 0 <= a < b < t.len() implies lex_lt(
        #[trigger] t[a],
        #[trigger] t[b],
    ) by {
        let a0 = if a < i { a } else { a + 1 };
        let b0 = if b < i { b } else { b + 1 };
        assert(t[a] == s[a0] && t[b] == s[b0]);
    }
}

/// Looks `key` up in a sorted vector of keys by bisection.
///
/// Returns `Ok` with the index that holds the key, or `Err` with the index at
/// which it would have to be inserted.
pub fn find_key(keys: &Vec<Vec<u8>>, key: &[u8]) -> (r: Result<usize, usize>)
    requires
        strictly_increasing(key_views(keys@)),
    ensures
        match r {
            Ok(i) => i < keys.len() && keys[i as int]@ == key@,
            Err(i) => splits_at(key_views(keys@), key@, i as int),
        },
{
    let ghost s = key_views(keys@);
    let mut lo: usize = 0;
    let mut hi: usize = keys.len();
    while lo < hi
        invariant
            s == key_views(keys@),
            strictly_increasing(s),
            0 <= lo <= hi <= keys.len(),
            forall|j: int| 0 <= j < lo ==> lex_lt(#[trigger] s[j], key@),
            forall|j: int| hi <= j < s.len() ==> lex_lt(key@, #[trigger] s[j]),
        decreases hi - lo,
    {
        let mid = lo + (hi - lo) / 2;
        assert(s[mid as int] == keys[mid as int]@);
        match compare_keys(keys[mid].as_slice(), key) {
            KeyOrder::Same => {
                return Ok(mid);
            },
            KeyOrder::Before => {
                proof {
                    assert forall|j: int| 0 <= j < mid + 1 implies lex_lt(#[trigger] s[j], key@) by {
                        if j < mid {
                            lemma_lex_transitive(s[j], s[mid as int], key@);
                        }
                    }
                }
                lo = mid + 1;
            },
            KeyOrder::After => {
                proof {
                    assert forall|j: int| mid <= j < s.len() implies lex_lt(key@, #[trigger] s[j]) by {
                        if mid < j {
                            lemma_lex_transitive(key@, s[mid as int], s[j]);
                        }
                    }
                }
                hi = mid;
            },
        }
    }
    Err(lo)
}

} // verus!
