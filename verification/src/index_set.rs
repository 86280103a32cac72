//! Sets of extrinsic indices, held as strictly ascending vectors.

use vstd::prelude::*;

verus! {

/// Every index is smaller than all indices after it.
pub open spec fn ascending(q: Seq<u32>) -> bool {
    forall|i: int, j: int| 0 <= i < j < q.len() ==> q[i] < q[j]
}

/// `q` lists exactly the members of `s`, smallest first.
pub open spec fn lists_ascending(q: Seq<u32>, s: Set<u32>) -> bool {
    ascending(q) && q.to_set() == s
}

/// The members of a finite set of indices, smallest first.
pub open spec fn ascending_listing(s: Set<u32>) -> Seq<u32> {
    choose|q: Seq<u32>| lists_ascending(q, s)
}

/// Two ascending sequences with the same members are the same sequence.
pub proof fn lemma_ascending_unique(p: Seq<u32>, q: Seq<u32>)
    requires
        ascending(p),
        ascending(q),
        p.to_set() == q.to_set(),
    ensures
        p == q,
    decreases p.len(),
{
    if p.len() == 0 {
        if q.len() > 0 {
            assert(q.to_set().contains(q[0]));
            assert(p.to_set().contains(q[0]));
        }
        assert(p =~= q);
    } else if q.len() == 0 {
        assert(p.to_set().contains(p[0]));
        assert(q.to_set().contains(p[0]));
    } else {
        let a = p.last();
        let b = q.last();
        assert(p.to_set().contains(a));
        assert(q.contains(a));
        assert(q.to_set().contains(b));
        assert(p.contains(b));
        let ia = choose|i: int| 0 <= i < q.len() && q[i] == a;
        let ib = choose|i: int| 0 <= i < p.len() && p[i] == b;
        assert(a <= b) by {
            if ia < q.len() - 1 {
                assert(q[ia] < q[q.len() - 1]);
            }
        }
        assert(b <= a) by {
            if ib < p.len() - 1 {
                assert(p[ib] < p[p.len() - 1]);
            }
        }
        let p_rest = p.drop_last();
        let q_rest = q.drop_last();
        assert forall|x: u32| p_rest.to_set().contains(x) == q_rest.to_set().contains(x) by {
            if p_rest.contains(x) {
                let i = choose|i: int| 0 <= i < p_rest.len() && p_rest[i] == x;
                assert(p[i] == x);
                assert(p[i] < p[p.len() - 1]);
                assert(p.to_set().contains(x));
                assert(q.contains(x));
                let j = choose|j: int| 0 <= j < q.len() && q[j] == x;
                assert(q_rest[j] == x);
            }
            if q_rest.contains(x) {
                let i = choose|i: int| 0 <= i < q_rest.len() && q_rest[i] == x;
                assert(q[i] == x);
                assert(q[i] < q[q.len() - 1]);
                assert(q.to_set().contains(x));
                assert(p.contains(x));
                let j = choose|j: int| 0 <= j < p.len() && p[j] == x;
                assert(p_rest[j] == x);
            }
        }
        assert(p_rest.to_set() =~= q_rest.to_set());
        lemma_ascending_unique(p_rest, q_rest);
        assert(p =~= p_rest.push(a));
        assert(q =~= q_rest.push(b));
    }
}

/// An ascending vector is the ascending listing of its own members.
pub proof fn lemma_ascending_is_listing(q: Seq<u32>)
    requires
        ascending(q),
    ensures
        ascending_listing(q.to_set()) == q,
{
    assert(lists_ascending(q, q.to_set()));
    let c = ascending_listing(q.to_set());
    assert(lists_ascending(c, q.to_set()));
    lemma_ascending_unique(c, q);
}

/// Adds `e` to an ascending vector of indices, keeping it ascending.
pub fn insert_index(v: &mut Vec<u32>, e: u32)
    requires
        ascending(old(v)@),
    ensures
        ascending(final(v)@),
        final(v)@.to_set() == old(v)@.to_set().insert(e),
{
    let mut i: usize = 0;
    while i < v.len() && v[i] < e
        invariant
            v@ == old(v)@,
            ascending(v@),
            0 <= i <= v.len(),
            forall|j: int| 0 <= j < i ==> v@[j] < e,
        decreases v.len() - i,
    {
        i += 1;
    }
    if i < v.len() && v[i] == e {
        assert(v@.to_set().contains(e)) by {
            assert(v@[i as int] == e);
        }
        assert(v@.to_set() =~= old(v)@.to_set().insert(e));
    } else {
        let ghost before = v@;
        v.insert(i, e);
        proof {
            let after = v@;
            assert(after == before.insert(i as int, e));
            assert forall|a: int, b: int| 0 <= a < b < after.len() implies after[a] < after[b] by {
                let a0 = if a < i { a } else { a - 1 };
                let b0 = if b < i { b } else { b - 1 };
                if a != i {
                    assert(after[a] == before[a0]);
                }
                if b != i {
                    assert(after[b] == before[b0]);
                }
                if a == i {
                    assert(before[i as int] <= before[b0]);
                }
            }
            assert forall|x: u32| after.to_set().contains(x) == before.to_set().insert(
                e,
            ).contains(x) by {
                if after.contains(x) {
                    let k = choose|k: int| 0 <= k < after.len() && after[k] == x;
                    if k < i {
                        assert(before[k] == x);
                    } else if k > i {
                        assert(before[k - 1] == x);
                    }
                }
                if before.contains(x) {
                    let k = choose|k: int| 0 <= k < before.len() && before[k] == x;
                    if k < i {
                        assert(after[k] == x);
                    } else {
                        assert(after[k + 1] == x);
                    }
                }
                if x == e {
                    assert(after[i as int] == e);
                }
            }
            assert(after.to_set() =~= before.to_set().insert(e));
        }
    }
}

/// Adds every index of `more` to `v`.
pub fn extend_indices(v: &mut Vec<u32>, more: &Vec<u32>)
    requires
        ascending(old(v)@),
    ensures
        ascending(final(v)@),
        final(v)@.to_set() == old(v)@.to_set().union(more@.to_set()),
{
    let mut i: usize = 0;
    while i < more.len()
        invariant
            0 <= i <= more.len(),
            ascending(v@),
            v@.to_set() == old(v)@.to_set().union(more@.take(i as int).to_set()),
        decreases more.len() - i,
    {
        insert_index(v, more[i]);
        proof {
            let t0 = more@.take(i as int);
            let t1 = more@.take(i + 1);
            assert(t1 =~= t0.push(more@[i as int]));
            assert forall|x: u32| t1.to_set().contains(x) == t0.to_set().insert(
                more@[i as int],
            ).contains(x) by {
                if t1.contains(x) {
                    let k = choose|k: int| 0 <= k < t1.len() && t1[k] == x;
                    if k < i {
                        assert(t0[k] == x);
                    }
                }
                if t0.contains(x) {
                    let k = choose|k: int| 0 <= k < t0.len() && t0[k] == x;
                    assert(t1[k] == x);
                }
                if x == more@[i as int] {
                    assert(t1[i as int] == x);
                }
            }
            assert(t1.to_set() =~= t0.to_set().insert(more@[i as int]));
            assert(v@.to_set() =~= old(v)@.to_set().union(t1.to_set()));
        }
        i += 1;
    }
    assert(more@.take(more.len() as int) =~= more@);
}

} // verus!
