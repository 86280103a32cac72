//! Dropping repeated extrinsic indices while keeping first occurrences.

use itertools::Itertools;
use vstd::prelude::*;

verus! {

/// `q` without its repetitions: each index stays where it first occurs.
pub open spec fn first_occurrences(q: Seq<u32>) -> Seq<u32>
    decreases q.len(),
{
    if q.len() == 0 {
        Seq::empty()
    } else {
        let rest = first_occurrences(q.drop_last());
        if rest.contains(q.last()) {
            rest
        } else {
            rest.push(q.last())
        }
    }
}

/// What is left after dropping repetitions holds no index twice and holds
/// exactly the indices that occur in `q`.
pub proof fn lemma_first_occurrences(q: Seq<u32>)
    ensures
        first_occurrences(q).no_duplicates(),
        first_occurrences(q).to_set() == q.to_set(),
    decreases q.len(),
{
    let r = first_occurrences(q);
    if q.len() == 0 {
        assert(r.to_set() =~= q.to_set());
    } else {
        let q0 = q.drop_last();
        let r0 = first_occurrences(q0);
        lemma_first_occurrences(q0);
        assert forall|x: u32| r.to_set().contains(x) == q.to_set().contains(x) by {
            if r.contains(x) {
                let k = choose|k: int| 0 <= k < r.len() && r[k] == x;
                if k < r0.len() {
                    assert(r0[k] == x);
                    assert(r0.to_set().contains(x));
                    assert(q0.contains(x));
                    let j = choose|j: int| 0 <= j < q0.len() && q0[j] == x;
                    assert(q[j] == x);
                } else {
                    assert(q[q.len() - 1] == x);
                }
            }
            if q.contains(x) {
                let j = choose|j: int| 0 <= j < q.len() && q[j] == x;
                if j < q0.len() {
                    assert(q0[j] == x);
                    assert(q0.to_set().contains(x));
                    assert(r0.contains(x));
                    let k = choose|k: int| 0 <= k < r0.len() && r0[k] == x;
                    assert(r[k] == x);
                } else if r0.contains(x) {
                } else {
                    assert(r[r.len() - 1] == x);
                }
            }
        }
        assert(r.to_set() =~= q.to_set());
    }
}

/// Calls `itertools::Itertools::unique` on the indices and collects what it
/// yields. The adaptor is documented to be stable: it yields the items in the
/// order in which they occur and, of equal items, only the first one.
#[verifier::external_body]
pub(crate) fn unique_indices(items: Vec<u32>) -> (r: Vec<u32>)
    ensures
        r@ == first_occurrences(items@),
{
    items.into_iter().unique().collect()
}

} // verus!
