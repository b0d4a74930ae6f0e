//! Lists in order.
use std::collections::BTreeSet;

use vstd::laws_cmp::obeys_cmp;
use vstd::prelude::*;
use vstd::std_specs::btree::{increasing_seq, spec_btree_keys_iter};
use vstd::std_specs::cmp::OrdSpec;
use vstd::std_specs::iter::IteratorSpec;

verus! {

broadcast use vstd::std_specs::btree::group_btree_axioms;

/// Each number is less than the next.
pub open spec fn ascends(q: Seq<u32>) -> bool {
    forall|i: int, j: int| 0 <= i < j < q.len() ==> q[i] < q[j]
}

/// Ascending numbers below `n` are no more than `n`.
pub proof fn ascending_below(q: Seq<u32>, n: int)
    requires
        ascends(q),
        0 <= n,
        forall|i: int| 0 <= i < q.len() ==> #[trigger] q[i] < n,
    ensures
        q.len() <= n,
    decreases q.len(),
{
    if q.len() > 0 {
        let last = q.last() as int;
        assert forall|i: int| 0 <= i < q.drop_last().len() implies #[trigger] q.drop_last()[i] < last by {
            assert(q[i] < q[q.len() - 1]);
        }
        ascending_below(q.drop_last(), last);
    }
}

/// The members of a set, smallest first, each once.
pub fn in_order(s: &BTreeSet<u32>) -> (out: Vec<u32>)
    ensures
        ascends(out@),
        forall|m: u32| #[trigger] out@.contains(m) <==> s@.contains(m),
{
    broadcast use vstd::laws_cmp::group_laws_cmp;

    let mut out: Vec<u32> = Vec::new();
    let ghost keys: Seq<&u32> = spec_btree_keys_iter(s).remaining();
    for n in iter: s.iter()
        invariant
            iter.seq() == keys,
            out@.len() == iter.index(),
            forall|k: int| 0 <= k < out@.len() ==> out@[k] == *keys[k],
    {
        out.push(*n);
    }
    proof {
        assert(out@.len() == keys.len());
        assert(obeys_cmp::<u32>());
        assert(obeys_cmp::<&u32>());
        assert(keys.unref().to_set() == s@);
        assert(increasing_seq(keys));
        assert forall|i: int, j: int| 0 <= i < j < out@.len() implies out@[i] < out@[j] by {
            assert(OrdSpec::cmp_spec(&keys[i], &keys[j]) is Less);
        }
        assert forall|m: u32| #[trigger] out@.contains(m) <==> s@.contains(m) by {
            if out@.contains(m) {
                let k = out@.index_of(m);
                assert(keys.unref()[k] == m);
                assert(keys.unref().contains(m));
            }
            if s@.contains(m) {
                assert(keys.unref().contains(m));
                let k = choose|k: int| 0 <= k < keys.unref().len() && keys.unref()[k] == m;
                assert(out@[k] == m);
            }
        }
    }
    out
}

/// The items in order of their keys.
pub open spec fn ordered<T>(q: Seq<T>, key: spec_fn(T) -> int) -> bool {
    forall|i: int, j: int| 0 <= i <= j < q.len() ==> key(#[trigger] q[i]) <= key(#[trigger] q[j])
}

/// Where an item with the key `k` goes among keys in order: behind those that are no
/// greater.
fn slot_for(keys: &Vec<u128>, k: u128) -> (at: usize)
    requires
        forall|i: int, j: int| 0 <= i <= j < keys@.len() ==> keys@[i] <= keys@[j],
    ensures
        at <= keys@.len(),
        forall|i: int| 0 <= i < at ==> keys@[i] <= k,
        forall|i: int| at <= i < keys@.len() ==> k < keys@[i],
{
    let mut lo: usize = 0;
    let mut hi = keys.len();
    while lo < hi
        invariant
            lo <= hi <= keys@.len(),
            forall|i: int, j: int| 0 <= i <= j < keys@.len() ==> keys@[i] <= keys@[j],
            forall|i: int| 0 <= i < lo ==> keys@[i] <= k,
            forall|i: int| hi <= i < keys@.len() ==> k < keys@[i],
        decreases hi - lo,
    {
        let mid = lo + (hi - lo) / 2;
        if keys[mid] <= k {
            lo = mid + 1;
        } else {
            hi = mid;
        }
    }
    lo
}

/// The same items in order of their keys.
pub(crate) fn sorted_by_key<T: Copy>(items: &Vec<T>, keys: &Vec<u128>, Ghost(key): Ghost<spec_fn(T) -> int>) -> (out: Vec<T>)
    requires
        keys@.len() == items@.len(),
        forall|i: int| 0 <= i < items@.len() ==> key(#[trigger] items@[i]) == keys@[i],
    ensures
        ordered(out@, key),
        out@.to_multiset() == items@.to_multiset(),
{
    broadcast use vstd::seq_lib::group_to_multiset_ensures;

    let mut out: Vec<T> = Vec::new();
    let mut done: Vec<u128> = Vec::new();
    let mut n: usize = 0;
    assert(items@.take(0) =~= Seq::empty());
    while n < items.len()
        invariant
            n <= items@.len(),
            keys@.len() == items@.len(),
            forall|i: int| 0 <= i < items@.len() ==> key(#[trigger] items@[i]) == keys@[i],
            out@.len() == n,
            done@.len() == n,
            forall|i: int| 0 <= i < n ==> key(#[trigger] out@[i]) == done@[i],
            forall|i: int, j: int| 0 <= i <= j < n ==> done@[i] <= done@[j],
            out@.to_multiset() == items@.take(n as int).to_multiset(),
        decreases items@.len() - n,
    {
        let k = keys[n];
        let at = slot_for(&done, k);
        let ghost before = out@;
        let ghost keys_before = done@;
        out.insert(at, items[n]);
        done.insert(at, k);
        proof {
            let x = items@[n as int];
            assert(items@.take(n + 1) =~= items@.take(n as int).push(x));
            assert(out@ =~= before.insert(at as int, x));
            assert(out@.remove(at as int) =~= before);
            vstd::seq_lib::to_multiset_remove(out@, at as int);
            assert(out@[at as int] == x);
            assert(out@.contains(x));
            vstd::seq_lib::to_multiset_contains(out@, x);
            vstd::seq_lib::to_multiset_build(items@.take(n as int), x);
            assert(out@.to_multiset() =~= before.to_multiset().insert(x));
            assert forall|i: int, j: int| 0 <= i <= j < n + 1 implies done@[i] <= done@[j] by {
                if i < at {
                    assert(done@[i] == keys_before[i]);
                } else if i > at {
                    assert(done@[i] == keys_before[i - 1]);
                }
                if j < at {
                    assert(done@[j] == keys_before[j]);
                } else if j > at {
                    assert(done@[j] == keys_before[j - 1]);
                }
            }
            assert forall|i: int| 0 <= i < n + 1 implies key(#[trigger] out@[i]) == done@[i] by {
                if i < at {
                    assert(out@[i] == before[i]);
                } else if i > at {
                    assert(out@[i] == before[i - 1]);
                }
            }
        }
        n += 1;
    }
    assert(items@.take(n as int) =~= items@);
    out
}

} // verus!
