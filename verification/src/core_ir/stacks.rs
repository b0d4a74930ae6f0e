//! Stacks of emptied cells that are parts of other stacks.
use vstd::prelude::*;

use crate::core_ir::reuse::{besides, last_where, on_all, on_each, Token};
use crate::core_ir::LocalId;

verus! {

/// `a` is `b` with some tokens left out.
pub open spec fn part_of(a: Seq<Token>, b: Seq<Token>) -> bool
    decreases b.len(),
{
    if a.len() == 0 {
        true
    } else if b.len() == 0 {
        false
    } else {
        ||| a.last() == b.last() && part_of(a.drop_last(), b.drop_last())
        ||| part_of(a, b.drop_last())
    }
}

/// A stack is part of itself.
pub proof fn part_of_itself(a: Seq<Token>)
    ensures
        part_of(a, a),
    decreases a.len(),
{
    if a.len() > 0 {
        part_of_itself(a.drop_last());
    }
}

/// A token may be parked on both stacks, or on the larger one.
pub proof fn part_after_push(a: Seq<Token>, b: Seq<Token>, t: Token)
    requires
        part_of(a, b),
    ensures
        part_of(a.push(t), b.push(t)),
        part_of(a, b.push(t)),
{
    assert(a.push(t).drop_last() =~= a);
    assert(b.push(t).drop_last() =~= b);
}

/// A token of the part is one of the whole.
pub proof fn part_has(a: Seq<Token>, b: Seq<Token>, t: Token)
    requires
        part_of(a, b),
        a.contains(t),
    ensures
        b.contains(t),
    decreases b.len(),
{
    if a.last() == b.last() && part_of(a.drop_last(), b.drop_last()) {
        if a.last() == t {
            assert(b[b.len() - 1] == t);
        } else {
            let i = choose|i: int| 0 <= i < a.len() && a[i] == t;
            assert(a.drop_last()[i] == t);
            part_has(a.drop_last(), b.drop_last(), t);
            let j = choose|j: int| 0 <= j < b.drop_last().len() && b.drop_last()[j] == t;
            assert(b[j] == t);
        }
    } else {
        part_has(a, b.drop_last(), t);
        let j = choose|j: int| 0 <= j < b.drop_last().len() && b.drop_last()[j] == t;
        assert(b[j] == t);
    }
}

/// Taking a token off the part leaves a part.
pub proof fn part_after_remove(a: Seq<Token>, b: Seq<Token>, i: int)
    requires
        part_of(a, b),
        0 <= i < a.len(),
    ensures
        part_of(a.remove(i), b),
    decreases b.len(),
{
    let left = a.remove(i);
    if left.len() > 0 {
        if a.last() == b.last() && part_of(a.drop_last(), b.drop_last()) {
            if i == a.len() - 1 {
                assert(left =~= a.drop_last());
            } else {
                part_after_remove(a.drop_last(), b.drop_last(), i);
                assert(left.drop_last() =~= a.drop_last().remove(i));
                assert(left.last() == a.last());
            }
        } else {
            part_after_remove(a, b.drop_last(), i);
        }
    }
}

/// What is left of a stack is part of it.
pub proof fn rest_is_part(a: Seq<Token>, i: int)
    requires
        0 <= i < a.len(),
    ensures
        part_of(a.remove(i), a),
{
    part_of_itself(a);
    part_after_remove(a, a, i);
}

/// Filters keep a part a part, where what the first keeps the second does.
pub proof fn part_after_filter(a: Seq<Token>, b: Seq<Token>, p: spec_fn(Token) -> bool, q: spec_fn(Token) -> bool)
    requires
        part_of(a, b),
        forall|t: Token| #[trigger] a.contains(t) && p(t) ==> q(t),
    ensures
        part_of(a.filter(p), b.filter(q)),
    decreases b.len(),
{
    reveal(Seq::filter);
    if a.len() > 0 {
        let b0 = b.drop_last();
        if a.last() == b.last() && part_of(a.drop_last(), b0) {
            let a0 = a.drop_last();
            assert forall|t: Token| #[trigger] a0.contains(t) && p(t) implies q(t) by {
                let i = choose|i: int| 0 <= i < a0.len() && a0[i] == t;
                assert(a[i] == t);
                assert(a.contains(t));
            }
            part_after_filter(a0, b0, p, q);
            assert(a[a.len() - 1] == a.last());
            assert(a.contains(a.last()));
            if p(a.last()) {
                part_after_push(a0.filter(p), b0.filter(q), a.last());
            } else if q(b.last()) {
                part_after_push(a0.filter(p), b0.filter(q), b.last());
            }
        } else {
            part_after_filter(a, b0, p, q);
            if q(b.last()) {
                part_after_push(a.filter(p), b0.filter(q), b.last());
            }
        }
    } else {
        assert(a.filter(p).len() == 0);
    }
}

/// What a filter keeps is part of what there was.
pub proof fn kept_is_part(a: Seq<Token>, p: spec_fn(Token) -> bool)
    ensures
        part_of(a.filter(p), a),
    decreases a.len(),
{
    reveal(Seq::filter);
    if a.len() > 0 {
        kept_is_part(a.drop_last(), p);
        assert(a =~= a.drop_last().push(a.last()));
        part_after_push(a.drop_last().filter(p), a.drop_last(), a.last());
    }
}

/// The last token that is picked comes off both stacks, or off the larger one.
pub proof fn part_after_pick(a: Seq<Token>, b: Seq<Token>, p: spec_fn(Token) -> bool)
    requires
        part_of(a, b),
    ensures
        match last_where(b, p) {
            Some(j) => {
                &&& 0 <= j < b.len()
                &&& match last_where(a, p) {
                    Some(i) => 0 <= i < a.len() && part_of(a.remove(i), b.remove(j)),
                    None => part_of(a, b.remove(j)),
                }
            },
            None => last_where(a, p) is None,
        },
    decreases b.len(),
{
    if a.len() == 0 {
        picked_is_there(b, p);
    } else {
        let b0 = b.drop_last();
        if p(b.last()) {
            assert(b.remove(b.len() - 1) =~= b0);
            if a.last() == b.last() && part_of(a.drop_last(), b0) {
                assert(a.remove(a.len() - 1) =~= a.drop_last());
            } else {
                picked_is_there(a, p);
                match last_where(a, p) {
                    Some(i) => {
                        part_after_remove(a, b0, i);
                    },
                    None => {},
                }
            }
        } else if a.last() == b.last() && part_of(a.drop_last(), b0) {
            let a0 = a.drop_last();
            part_after_pick(a0, b0, p);
            match last_where(b0, p) {
                Some(j) => {
                    assert(b.remove(j) =~= b0.remove(j).push(b.last()));
                    match last_where(a0, p) {
                        Some(i) => {
                            assert(a.remove(i) =~= a0.remove(i).push(a.last()));
                            part_after_push(a0.remove(i), b0.remove(j), a.last());
                        },
                        None => {
                            assert(a =~= a0.push(a.last()));
                            part_after_push(a0, b0.remove(j), a.last());
                        },
                    }
                },
                None => {},
            }
        } else {
            part_after_pick(a, b0, p);
            match last_where(b0, p) {
                Some(j) => {
                    assert(b.remove(j) =~= b0.remove(j).push(b.last()));
                    match last_where(a, p) {
                        Some(i) => {
                            part_after_push(a.remove(i), b0.remove(j), b.last());
                        },
                        None => {
                            part_after_push(a, b0.remove(j), b.last());
                        },
                    }
                },
                None => {},
            }
        }
    }
}

/// A token that is picked is on the stack.
pub proof fn picked_is_there(q: Seq<Token>, p: spec_fn(Token) -> bool)
    ensures
        match last_where(q, p) {
            Some(i) => 0 <= i < q.len() && p(q[i]),
            None => true,
        },
    decreases q.len(),
{
    if q.len() > 0 && !p(q.last()) {
        picked_is_there(q.drop_last(), p);
    }
}

/// Leaving out a slot keeps a part a part.
pub proof fn part_besides(a: Seq<Token>, b: Seq<Token>, bind: LocalId)
    requires
        part_of(a, b),
    ensures
        part_of(besides(a, bind), besides(b, bind)),
{
    part_after_filter(a, b, |t: Token| t.slot != bind, |t: Token| t.slot != bind);
}

/// As many stacks, each part of the other's.
pub open spec fn parts_of(x: Seq<Seq<Token>>, y: Seq<Seq<Token>>) -> bool {
    &&& x.len() == y.len()
    &&& forall|i: int| 0 <= i < x.len() ==> part_of(#[trigger] x[i], y[i])
}

/// What is on all of some stacks is part of what is on all of larger ones.
pub proof fn part_on_all(x: Seq<Seq<Token>>, y: Seq<Seq<Token>>)
    requires
        parts_of(x, y),
    ensures
        part_of(on_all(x), on_all(y)),
{
    if x.len() > 0 {
        let p = |t: Token| on_each(x, t);
        let q = |t: Token| on_each(y, t);
        assert forall|t: Token| #[trigger] x[0].contains(t) && p(t) implies q(t) by {
            assert forall|k: int| 0 <= k < y.len() implies (#[trigger] y[k]).contains(t) by {
                assert(x[k].contains(t));
                part_has(x[k], y[k], t);
            }
        }
        part_after_filter(x[0], y[0], p, q);
    }
}

/// A token that is on all of some stacks is on each.
pub proof fn common_is_on_each(lists: Seq<Seq<Token>>, t: Token, m: int)
    requires
        on_all(lists).contains(t),
        0 <= m < lists.len(),
    ensures
        lists[m].contains(t),
{
    let p = |t: Token| on_each(lists, t);
    let all = on_all(lists);
    let i = choose|i: int| 0 <= i < all.len() && all[i] == t;
    lists[0].lemma_filter_pred(p, i);
    assert(p(t));
}

} // verus!
