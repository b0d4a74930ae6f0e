//! Sets of local numbers, walked in ascending order.
use std::collections::BTreeSet;

use vstd::prelude::*;
use vstd::laws_cmp::obeys_cmp;
use vstd::std_specs::btree::{increasing_seq, spec_btree_keys_iter};
use vstd::std_specs::cmp::OrdSpec;
use vstd::std_specs::iter::IteratorSpec;

use crate::core_ir::LocalId;

verus! {

broadcast use vstd::std_specs::btree::group_btree_axioms;

/// `q` lists its members in strictly ascending order.
pub open spec fn strictly_ascending(q: Seq<LocalId>) -> bool {
    forall|i: int, j: int| 0 <= i < j < q.len() ==> q[i].0 < q[j].0
}

/// `q` names exactly the numbers of `s`.
pub open spec fn lists(q: Seq<LocalId>, s: Set<u32>) -> bool {
    forall|n: u32|
        #![trigger q.contains(LocalId(n))]
        #![trigger s.contains(n)]
        q.contains(LocalId(n)) <==> s.contains(n)
}

/// The locals numbered in `s`, smallest first.
pub open spec fn ascending(s: Set<u32>) -> Seq<LocalId> {
    choose|q: Seq<LocalId>| strictly_ascending(q) && lists(q, s)
}

/// Only one strictly ascending sequence has given members.
pub proof fn ascending_is_unique(p: Seq<LocalId>, q: Seq<LocalId>)
    requires
        strictly_ascending(p),
        strictly_ascending(q),
        forall|x: LocalId| p.contains(x) <==> q.contains(x),
    ensures
        p == q,
    decreases p.len(),
{
    if p.len() == 0 {
        if q.len() > 0 {
            assert(q.contains(q[0]));
        }
        assert(p =~= q);
    } else {
        assert(p.contains(p.last()));
        assert(q.contains(p.last()));
        assert(q.contains(q.last()));
        assert(p.contains(q.last()));
        assert(p.last() == q.last());
        let p1 = p.drop_last();
        let q1 = q.drop_last();
        assert forall|x: LocalId| p1.contains(x) <==> q1.contains(x) by {
            if p1.contains(x) {
                let i = choose|i: int| 0 <= i < p1.len() && p1[i] == x;
                assert(p[i] == x);
                assert(q.contains(x));
                let j = choose|j: int| 0 <= j < q.len() && q[j] == x;
                assert(q1[j] == x);
            }
            if q1.contains(x) {
                let i = choose|i: int| 0 <= i < q1.len() && q1[i] == x;
                assert(q[i] == x);
                assert(p.contains(x));
                let j = choose|j: int| 0 <= j < p.len() && p[j] == x;
                assert(p1[j] == x);
            }
        }
        ascending_is_unique(p1, q1);
        assert(p =~= p1.push(p.last()));
        assert(q =~= q1.push(q.last()));
    }
}

/// A strictly ascending listing of `s` is the one [`ascending`] names.
pub proof fn ascending_is(q: Seq<LocalId>, s: Set<u32>)
    requires
        strictly_ascending(q),
        lists(q, s),
    ensures
        q == ascending(s),
{
    let p = ascending(s);
    assert(strictly_ascending(p) && lists(p, s));
    assert forall|x: LocalId| p.contains(x) <==> q.contains(x) by {
        assert(x == LocalId(x.0));
        assert(p.contains(LocalId(x.0)) <==> s.contains(x.0));
        assert(q.contains(LocalId(x.0)) <==> s.contains(x.0));
    }
    ascending_is_unique(p, q);
}

/// Every set of local numbers has an ascending listing.
pub proof fn ascending_exists(s: Set<u32>)
    ensures
        strictly_ascending(ascending(s)),
        lists(ascending(s), s),
{
    let q = listing_below(s, u32::MAX as nat + 1);
    assert(strictly_ascending(q) && lists(q, s));
}

/// An ascending listing of the members of `s` below `n`.
proof fn listing_below(s: Set<u32>, n: nat) -> (q: Seq<LocalId>)
    requires
        n <= u32::MAX + 1,
    ensures
        strictly_ascending(q),
        forall|m: u32|
            #![trigger q.contains(LocalId(m))]
            #![trigger s.contains(m)]
            q.contains(LocalId(m)) <==> s.contains(m) && m < n,
    decreases n,
{
    if n == 0 {
        Seq::empty()
    } else {
        let top = (n - 1) as u32;
        let p = listing_below(s, (n - 1) as nat);
        if s.contains(top) {
            let q = p.push(LocalId(top));
            assert forall|i: int, j: int| 0 <= i < j < q.len() implies q[i].0 < q[j].0 by {
                assert(q[i] == p[i]);
                if j < p.len() {
                    assert(q[j] == p[j]);
                } else {
                    let m = p[i].0;
                    assert(p[i] == LocalId(m));
                    assert(p.contains(LocalId(m)));
                    assert(m < n - 1);
                    assert(q[j] == LocalId(top));
                }
            }
            assert forall|m: u32| q.contains(LocalId(m)) <==> s.contains(m) && m < n by {
                if q.contains(LocalId(m)) {
                    let i = choose|i: int| 0 <= i < q.len() && q[i] == LocalId(m);
                    if i < p.len() {
                        assert(p[i] == LocalId(m));
                        assert(p.contains(LocalId(m)));
                    }
                }
                if s.contains(m) && m < n {
                    if m < n - 1 {
                        assert(p.contains(LocalId(m)));
                        let i = choose|i: int| 0 <= i < p.len() && p[i] == LocalId(m);
                        assert(q[i] == LocalId(m));
                    } else {
                        assert(q[p.len() as int] == LocalId(m));
                    }
                }
            }
            q
        } else {
            p
        }
    }
}

/// The members of `s`, smallest first.
pub fn members(s: &BTreeSet<u32>) -> (out: Vec<LocalId>)
    ensures
        strictly_ascending(out@),
        lists(out@, s@),
        out@ == ascending(s@),
{
    broadcast use vstd::laws_cmp::group_laws_cmp;

    let mut out: Vec<LocalId> = Vec::new();
    let ghost keys: Seq<&u32> = spec_btree_keys_iter(s).remaining();
    for n in iter: s.iter()
        invariant
            iter.seq() == keys,
            out@.len() == iter.index(),
            forall|k: int| 0 <= k < out@.len() ==> out@[k].0 == *keys[k],
    {
        out.push(LocalId(*n));
    }
    proof {
        assert(out@.len() == keys.len());
        assert(obeys_cmp::<u32>());
        assert(obeys_cmp::<&u32>());
        assert(keys.unref().to_set() == s@);
        assert(increasing_seq(keys));
        assert forall|i: int, j: int| 0 <= i < j < out@.len() implies out@[i].0 < out@[j].0 by {
            assert(OrdSpec::cmp_spec(&keys[i], &keys[j]) is Less);
        }
        assert forall|m: u32| out@.contains(LocalId(m)) <==> s@.contains(m) by {
            if out@.contains(LocalId(m)) {
                let k = choose|k: int| 0 <= k < out@.len() && out@[k] == LocalId(m);
                assert(keys.unref()[k] == m);
                assert(keys.unref().contains(m));
            }
            if s@.contains(m) {
                assert(keys.unref().contains(m));
                let k = choose|k: int| 0 <= k < keys.unref().len() && keys.unref()[k] == m;
                assert(out@[k] == LocalId(m));
            }
        }
        ascending_is(out@, s@);
    }
    out
}

/// The members of `s` that `without` lacks, smallest first.
pub fn set_diff(s: &BTreeSet<u32>, without: &BTreeSet<u32>) -> (out: Vec<LocalId>)
    ensures
        out@ == ascending(s@.difference(without@)),
        strictly_ascending(out@),
        lists(out@, s@.difference(without@)),
{
    broadcast use vstd::laws_cmp::group_laws_cmp;

    let all = members(s);
    let mut out: Vec<LocalId> = Vec::new();
    let mut k: usize = 0;
    while k < all.len()
        invariant
            k <= all.len(),
            strictly_ascending(all@),
            strictly_ascending(out@),
            forall|j: int| 0 <= j < out@.len() ==> !without@.contains(out@[j].0) && (exists|i: int| 0 <= i < k && all@[i] == out@[j]),
            forall|i: int| 0 <= i < k && !without@.contains(all@[i].0) ==> out@.contains(all@[i]),
        decreases all.len() - k,
    {
        let x = all[k];
        let ghost before = out@;
        if !without.contains(&x.0) {
            out.push(x);
            assert(out@.last() == x);
        }
        assert forall|i: int| 0 <= i < k + 1 && !without@.contains(all@[i].0) implies out@.contains(all@[i]) by {
            if i < k {
                let j = choose|j: int| 0 <= j < before.len() && before[j] == all@[i];
                assert(out@[j] == all@[i]);
            }
        }
        k += 1;
    }
    proof {
        let want = s@.difference(without@);
        assert forall|m: u32| out@.contains(LocalId(m)) <==> want.contains(m) by {
            if out@.contains(LocalId(m)) {
                let j = choose|j: int| 0 <= j < out@.len() && out@[j] == LocalId(m);
                let i = choose|i: int| 0 <= i < k && all@[i] == out@[j];
                assert(all@.contains(LocalId(m)));
            }
            if want.contains(m) {
                assert(all@.contains(LocalId(m)));
                let i = choose|i: int| 0 <= i < all@.len() && all@[i] == LocalId(m);
                assert(out@.contains(all@[i]));
            }
        }
        ascending_is(out@, want);
    }
    out
}

} // verus!
