//! A reuse walk with more parked finds what one with less does, and does not depend on what
//! that one wrote down.
use vstd::prelude::*;

use crate::core_ir::reuse::{
    besides, calls_self, exits_stay, last_where, let_pick, let_take, on_all, paired, paired_arms, parked, tail_pick, tail_take,
    Token,
};
use crate::core_ir::stacks::{
    common_is_on_each, kept_is_part, part_after_pick, part_after_push, part_after_remove, part_besides, part_has, part_of, part_of_itself,
    part_on_all, parts_of, picked_is_there, rest_is_part,
};
use crate::core_ir::{AtomView, LocalId, PatView, Term};

verus! {

/// The cell that an atom overwrites.
pub open spec fn overwritten(a: AtomView) -> Option<(u32, usize)> {
    match a {
        AtomView::Ctor { variant, fields, reuse } => match reuse {
            Some(r) => Some((r.0, fields.len() as usize)),
            None => None,
        },
        _ => None,
    }
}

/// No constructor of `e` overwrites a cell.
pub open spec fn reuse_free(e: Term) -> bool
    decreases e,
{
    match e {
        Term::Let { bind, rhs, body } => overwritten(rhs) is None && reuse_free(*body),
        Term::LetJoin { bind, join, body } => reuse_free(*join) && reuse_free(*body),
        Term::LetCont { id, cont, body } => reuse_free(*cont) && reuse_free(*body),
        Term::Drop { local, shape, body } => reuse_free(*body),
        Term::Tail(a) => overwritten(a) is None,
        Term::Goto(id) => true,
        Term::If { cond, yes, no, ty } => reuse_free(*yes) && reuse_free(*no),
        Term::Match { scrut, arms, ty } => arms_reuse_free(arms),
    }
}

/// No constructor of some arms overwrites a cell.
pub open spec fn arms_reuse_free(arms: Seq<(PatView, Term)>) -> bool
    decreases arms,
{
    arms.len() == 0 || (arms_reuse_free(arms.drop_last()) && reuse_free(arms.last().1))
}

/// No token of a stack is carried.
pub open spec fn fresh(a: Seq<Token>) -> bool {
    forall|t: Token| #[trigger] a.contains(t) ==> !t.carried
}

/// No token of any stack is carried.
pub open spec fn all_fresh(x: Seq<Seq<Token>>) -> bool {
    forall|i: int| 0 <= i < x.len() ==> fresh(#[trigger] x[i])
}

/// Stacks of tokens that are not carried, each part of the other's.
pub open spec fn fresh_parts(x: Seq<Seq<Token>>, y: Seq<Seq<Token>>) -> bool {
    parts_of(x, y) && all_fresh(x)
}

/// The same of stacks that are there inside a join.
pub open spec fn fresh_exits(x: Option<Seq<Seq<Token>>>, y: Option<Seq<Seq<Token>>>) -> bool {
    match (x, y) {
        (Some(p), Some(q)) => fresh_parts(p, q),
        (None, None) => true,
        _ => false,
    }
}

/// A stack of tokens that are not carried, part of another.
pub open spec fn fresh_part(a: Seq<Token>, b: Seq<Token>) -> bool {
    part_of(a, b) && fresh(a)
}

proof fn fresh_of_part(a: Seq<Token>, b: Seq<Token>)
    requires
        part_of(a, b),
        fresh(b),
    ensures
        fresh(a),
{
    assert forall|t: Token| #[trigger] a.contains(t) implies !t.carried by {
        part_has(a, b, t);
    }
}

/// A constructor that finds a cell with less parked finds one with more, and which one it
/// then takes does not depend on what it took before.
proof fn takes_again(a: AtomView, a1: Seq<Token>, a2: Seq<Token>, bind: Option<LocalId>)
    requires
        fresh_part(a1, a2),
        overwritten(a) is None,
    ensures
        ({
            let first = match bind {
                Some(x) => let_take(x, a, a1),
                None => tail_take(a, a1),
            };
            let second = match bind {
                Some(x) => let_take(x, a, a2),
                None => tail_take(a, a2),
            };
            let again = match bind {
                Some(x) => let_take(x, first.0, a2),
                None => tail_take(first.0, a2),
            };
            &&& again == second
            &&& fresh_part(first.1, second.1)
            &&& calls_self(first.0) == calls_self(a)
            &&& calls_self(second.0) == calls_self(a)
        }),
{
    match a.shape() {
        Some(want) => {
            let free = |t: Token| !t.carried && t.shape == want;
            part_after_pick(a1, a2, free);
            picked_is_there(a1, free);
            picked_is_there(a2, free);
            let (left1, left2) = match bind {
                Some(x) => {
                    let own = |t: Token| t.slot == x && t.shape == want;
                    part_after_pick(a1, a2, own);
                    picked_is_there(a1, own);
                    picked_is_there(a2, own);
                    match let_pick(a1, x, want) {
                        Some(i) => {
                            part_after_remove(a1, a2, i);
                            rest_is_part(a1, i);
                            if last_where(a2, own) is Some
                                && last_where(a1, own) is None {
                                part_after_remove(a1, a2.remove(let_pick(a2, x, want)->0), i);
                            }
                        },
                        None => {
                            part_of_itself(a1);
                        },
                    }
                    (let_take(x, a, a1).1, let_take(x, a, a2).1)
                },
                None => {
                    match tail_pick(a1, want) {
                        Some(i) => {
                            rest_is_part(a1, i);
                        },
                        None => {
                            part_of_itself(a1);
                        },
                    }
                    (tail_take(a, a1).1, tail_take(a, a2).1)
                },
            };
            assert(part_of(left1, a1));
            fresh_of_part(left1, a1);
            assert(part_of(left1, left2));
        },
        None => {},
    }
}

proof fn left_after_join(x: Seq<Seq<Token>>, y: Seq<Seq<Token>>, bind: LocalId)
    requires
        fresh_parts(x, y),
    ensures
        fresh_part(besides(on_all(x), bind), besides(on_all(y), bind)),
{
    part_on_all(x, y);
    part_besides(on_all(x), on_all(y), bind);
    assert(fresh(on_all(x))) by {
        assert forall|t: Token| #[trigger] on_all(x).contains(t) implies !t.carried by {
            if x.len() > 0 {
                common_is_on_each(x, t, 0);
                assert(fresh(x[0]));
            }
        }
    }
    kept_is_part(on_all(x), |t: Token| t.slot != bind);
    fresh_of_part(besides(on_all(x), bind), on_all(x));
}

/// A walk with more parked meets more at every exit and every self tail call, and gives the
/// same whether a walk with less parked came before it or not.
pub proof fn more_finds_more(
    e: Term,
    a1: Seq<Token>,
    a2: Seq<Token>,
    t1: Seq<Seq<Token>>,
    t2: Seq<Seq<Token>>,
    x1: Option<Seq<Seq<Token>>>,
    x2: Option<Seq<Seq<Token>>>,
)
    requires
        reuse_free(e),
        fresh_part(a1, a2),
        fresh_parts(t1, t2),
        fresh_exits(x1, x2),
    ensures
        ({
            let p = paired(e, a1, t1, x1);
            let q = paired(e, a2, t2, x2);
            &&& fresh_parts(p.tails, q.tails)
            &&& fresh_exits(p.exits, q.exits)
            &&& paired(p.term, a2, t2, x2) == q
        }),
    decreases e,
{
    match e {
        Term::Drop { local, shape, body } => {
            let b1 = parked(a1, local, shape);
            let b2 = parked(a2, local, shape);
            match shape {
                Some(s) => {
                    let t = Token { slot: local, shape: s, carried: false };
                    part_after_push(a1, a2, t);
                    assert forall|u: Token| #[trigger] a1.push(t).contains(u) implies !u.carried by {
                        let i = choose|i: int| 0 <= i < a1.push(t).len() && a1.push(t)[i] == u;
                        if i < a1.len() {
                            assert(a1.contains(u));
                        }
                    }
                },
                None => {},
            }
            more_finds_more(*body, b1, b2, t1, t2, x1, x2);
        },
        Term::Let { bind, rhs, body } => {
            takes_again(rhs, a1, a2, Some(bind.id));
            let l1 = let_take(bind.id, rhs, a1).1;
            let l2 = let_take(bind.id, rhs, a2).1;
            part_besides(l1, l2, bind.id);
            kept_is_part(l1, |t: Token| t.slot != bind.id);
            fresh_of_part(besides(l1, bind.id), l1);
            more_finds_more(*body, besides(l1, bind.id), besides(l2, bind.id), t1, t2, x1, x2);
        },
        Term::LetJoin { bind, join, body } => {
            let none: Option<Seq<Seq<Token>>> = Some(Seq::empty());
            more_finds_more(*join, a1, a2, t1, t2, none, none);
            let i1 = paired(*join, a1, t1, none);
            let i2 = paired(*join, a2, t2, none);
            let (l1, l2) = (i1.exits->0, i2.exits->0);
            exits_stay(*join, a1, t1, none);
            exits_stay(*join, a2, t2, none);
            left_after_join(l1, l2, bind.id);
            more_finds_more(*body, besides(on_all(l1), bind.id), besides(on_all(l2), bind.id), i1.tails, i2.tails, x1, x2);
        },
        Term::LetCont { id, cont, body } => {
            let none = Seq::<Token>::empty();
            part_of_itself(none);
            more_finds_more(*cont, none, none, t1, t2, x1, x2);
            let s1 = paired(*cont, none, t1, x1);
            let s2 = paired(*cont, none, t2, x2);
            more_finds_more(*body, a1, a2, s1.tails, s2.tails, s1.exits, s2.exits);
        },
        Term::If { cond, yes, no, ty } => {
            more_finds_more(*yes, a1, a2, t1, t2, x1, x2);
            let s1 = paired(*yes, a1, t1, x1);
            let s2 = paired(*yes, a2, t2, x2);
            more_finds_more(*no, a1, a2, s1.tails, s2.tails, s1.exits, s2.exits);
        },
        Term::Match { scrut, arms, ty } => {
            more_finds_more_in_arms(arms, a1, a2, t1, t2, x1, x2);
        },
        Term::Tail(a) => {
            takes_again(a, a1, a2, None);
        },
        Term::Goto(id) => {},
    }
}

proof fn more_finds_more_in_arms(
    arms: Seq<(PatView, Term)>,
    a1: Seq<Token>,
    a2: Seq<Token>,
    t1: Seq<Seq<Token>>,
    t2: Seq<Seq<Token>>,
    x1: Option<Seq<Seq<Token>>>,
    x2: Option<Seq<Seq<Token>>>,
)
    requires
        arms_reuse_free(arms),
        fresh_part(a1, a2),
        fresh_parts(t1, t2),
        fresh_exits(x1, x2),
    ensures
        ({
            let p = paired_arms(arms, a1, t1, x1);
            let q = paired_arms(arms, a2, t2, x2);
            &&& fresh_parts(p.tails, q.tails)
            &&& fresh_exits(p.exits, q.exits)
            &&& paired_arms(p.arms, a2, t2, x2) == q
        }),
    decreases arms,
{
    if arms.len() > 0 {
        let rest = arms.drop_last();
        more_finds_more_in_arms(rest, a1, a2, t1, t2, x1, x2);
        let b1 = paired_arms(rest, a1, t1, x1);
        let b2 = paired_arms(rest, a2, t2, x2);
        more_finds_more(arms.last().1, a1, a2, b1.tails, b2.tails, b1.exits, b2.exits);
        let p = paired_arms(arms, a1, t1, x1);
        assert(p.arms.drop_last() =~= b1.arms);
    } else {
        assert(paired_arms(arms, a1, t1, x1).arms =~= Seq::empty());
    }
}

} // verus!
