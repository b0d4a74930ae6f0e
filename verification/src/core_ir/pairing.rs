//! What the reuse walk does to a body: it says which cell a constructor overwrites, wherever one is
//! at hand, and changes nothing else.
use vstd::prelude::*;

use crate::core_ir::promptness::{
    cells_are_at_hand_until_bound, constructors_take_what_fits, is_for, tails_take_what_fits, what_is_shared_is_on_each,
};
use crate::core_ir::reuse::{besides, on_all, paired, paired_arms, parked, reused, seed, Token};
use crate::core_ir::{AtomView, Callee, CoreBind, JoinId, LocalId, PatView, ReuseShape, Term};
use crate::core_ir::types::RTy;

verus! {

/// An atom that overwrites nothing.
pub open spec fn plain_atom(a: AtomView) -> AtomView {
    match a {
        AtomView::Ctor { variant, fields, reuse } => AtomView::Ctor { variant, fields, reuse: None },
        _ => a,
    }
}

/// A body in which nothing is overwritten.
pub open spec fn plain(e: Term) -> Term
    decreases e,
{
    match e {
        Term::Let { bind, rhs, body } => Term::Let { bind, rhs: plain_atom(rhs), body: Box::new(plain(*body)) },
        Term::LetJoin { bind, join, body } => Term::LetJoin {
            bind,
            join: Box::new(plain(*join)),
            body: Box::new(plain(*body)),
        },
        Term::LetCont { id, cont, body } => Term::LetCont {
            id,
            cont: Box::new(plain(*cont)),
            body: Box::new(plain(*body)),
        },
        Term::Drop { local, shape, body } => Term::Drop { local, shape, body: Box::new(plain(*body)) },
        Term::Tail(a) => Term::Tail(plain_atom(a)),
        Term::Goto(id) => e,
        Term::If { cond, yes, no, ty } => Term::If { cond, yes: Box::new(plain(*yes)), no: Box::new(plain(*no)), ty },
        Term::Match { scrut, arms, ty } => Term::Match { scrut, arms: plain_arms(arms), ty },
    }
}

/// Arms in which nothing is overwritten.
pub open spec fn plain_arms(arms: Seq<(PatView, Term)>) -> Seq<(PatView, Term)>
    decreases arms,
{
    if arms.len() == 0 {
        Seq::empty()
    } else {
        plain_arms(arms.drop_last()).push((arms.last().0, plain(arms.last().1)))
    }
}

/// The reuse walk says which cells are overwritten, and changes nothing else in a body.
pub proof fn pairing_changes_only_what_is_overwritten(
    e: Term,
    avail: Seq<Token>,
    tails: Seq<Seq<Token>>,
    exits: Option<Seq<Seq<Token>>>,
)
    ensures
        plain(paired(e, avail, tails, exits).term) == plain(e),
    decreases e,
{
    match e {
        Term::Let { bind, rhs, body } => {
            let left = crate::core_ir::reuse::let_take(bind.id, rhs, avail).1;
            pairing_changes_only_what_is_overwritten(*body, besides(left, bind.id), tails, exits);
        },
        Term::LetJoin { bind, join, body } => {
            let inner = paired(*join, avail, tails, Some(Seq::empty()));
            pairing_changes_only_what_is_overwritten(*join, avail, tails, Some(Seq::empty()));
            pairing_changes_only_what_is_overwritten(*body, besides(on_all(inner.exits->0), bind.id), inner.tails, exits);
        },
        Term::LetCont { id, cont, body } => {
            let shared = paired(*cont, Seq::empty(), tails, exits);
            pairing_changes_only_what_is_overwritten(*cont, Seq::empty(), tails, exits);
            pairing_changes_only_what_is_overwritten(*body, avail, shared.tails, shared.exits);
        },
        Term::Drop { local, shape, body } => {
            pairing_changes_only_what_is_overwritten(*body, parked(avail, local, shape), tails, exits);
        },
        Term::If { cond, yes, no, ty } => {
            let t = paired(*yes, avail, tails, exits);
            pairing_changes_only_what_is_overwritten(*yes, avail, tails, exits);
            pairing_changes_only_what_is_overwritten(*no, avail, t.tails, t.exits);
        },
        Term::Match { scrut, arms, ty } => {
            arms_change_only_what_is_overwritten(arms, avail, tails, exits);
        },
        Term::Tail(a) => {},
        Term::Goto(id) => {},
    }
}

/// So it is with arms.
proof fn arms_change_only_what_is_overwritten(
    arms: Seq<(PatView, Term)>,
    avail: Seq<Token>,
    tails: Seq<Seq<Token>>,
    exits: Option<Seq<Seq<Token>>>,
)
    ensures
        plain_arms(paired_arms(arms, avail, tails, exits).arms) == plain_arms(arms),
    decreases arms,
{
    if arms.len() > 0 {
        let before = paired_arms(arms.drop_last(), avail, tails, exits);
        arms_change_only_what_is_overwritten(arms.drop_last(), avail, tails, exits);
        pairing_changes_only_what_is_overwritten(arms.last().1, avail, before.tails, before.exits);
        let all = paired_arms(arms, avail, tails, exits).arms;
        assert(all.drop_last() =~= before.arms);
    }
}

/// Both walks together say which cells are overwritten, and change nothing else.
pub proof fn reuse_changes_only_what_is_overwritten(e: Term)
    ensures
        plain(reused(e)) == plain(e),
{
    let first = paired(e, Seq::empty(), Seq::empty(), None);
    pairing_changes_only_what_is_overwritten(e, Seq::empty(), Seq::empty(), None);
    match seed(first.tails) {
        Some(avail) => {
            pairing_changes_only_what_is_overwritten(first.term, avail, Seq::empty(), None);
        },
        None => {},
    }
}

/// The constructor that a body starts with, or ends with at once.
pub open spec fn first_made(e: Term) -> Option<AtomView> {
    match e {
        Term::Let { bind, rhs, body } => if rhs is Ctor {
            Some(rhs)
        } else {
            None
        },
        Term::Tail(a) => if a is Ctor {
            Some(a)
        } else {
            None
        },
        _ => None,
    }
}

/// A body starts with a constructor of so many fields.
pub open spec fn makes(e: Term, n: usize) -> bool {
    first_made(e) is Some && first_made(e)->0->fields.len() as usize == n
}

/// A body starts with a constructor that overwrites a cell.
pub open spec fn overwrites(e: Term) -> bool {
    first_made(e) is Some && first_made(e)->0->reuse is Some
}

/// A cell of so many words was dropped in this round and is at hand.
pub open spec fn at_hand(avail: Seq<Token>, n: usize) -> bool {
    exists|i: int| 0 <= i < avail.len() && (#[trigger] avail[i]).shape.fields == n && !avail[i].carried
}

/// A constructor overwrites a cell if one of its size is at hand.
pub proof fn what_is_at_hand_is_overwritten(
    e: Term,
    n: usize,
    avail: Seq<Token>,
    tails: Seq<Seq<Token>>,
    exits: Option<Seq<Seq<Token>>>,
)
    requires
        makes(e, n),
        at_hand(avail, n),
    ensures
        overwrites(paired(e, avail, tails, exits).term),
{
    let i = choose|i: int| 0 <= i < avail.len() && (#[trigger] avail[i]).shape.fields == n && !avail[i].carried;
    match e {
        Term::Let { bind, rhs, body } => {
            constructors_take_what_fits(bind.id, rhs, avail);
            assert(is_for(avail[i], rhs));
        },
        Term::Tail(a) => {
            tails_take_what_fits(a, avail);
            assert(is_for(avail[i], a));
        },
        _ => {},
    }
}

/// With nothing at hand nothing is overwritten.
pub proof fn with_nothing_at_hand_nothing_is_overwritten(
    e: Term,
    tails: Seq<Seq<Token>>,
    exits: Option<Seq<Seq<Token>>>,
)
    requires
        first_made(e) is Some,
    ensures
        first_made(paired(e, Seq::empty(), tails, exits).term) == first_made(e),
{
    match e {
        Term::Let { bind, rhs, body } => {
            constructors_take_what_fits(bind.id, rhs, Seq::empty());
        },
        Term::Tail(a) => {
            tails_take_what_fits(a, Seq::empty());
        },
        _ => {},
    }
}

/// A cell that is dropped is overwritten by a constructor of its size that follows.
pub proof fn a_dropped_cell_is_overwritten(
    local: LocalId,
    n: usize,
    body: Term,
    avail: Seq<Token>,
    tails: Seq<Seq<Token>>,
    exits: Option<Seq<Seq<Token>>>,
)
    requires
        n > 0,
        makes(body, n),
    ensures
        ({
            let e = Term::Drop { local, shape: Some(ReuseShape { fields: n }), body: Box::new(body) };
            overwrites(*paired(e, avail, tails, exits).term->Drop_body)
        }),
{
    let all = parked(avail, local, Some(ReuseShape { fields: n }));
    assert(all[avail.len() as int].shape.fields == n && !all[avail.len() as int].carried);
    what_is_at_hand_is_overwritten(body, n, all, tails, exits);
}

/// What is at hand before a branch is at hand in both, and before a match in every arm; before a join
/// it is at hand in it.
pub proof fn every_branch_has_it_at_hand(
    cond: LocalId,
    yes: Term,
    no: Term,
    ty: RTy,
    scrut: LocalId,
    arms: Seq<(PatView, Term)>,
    k: int,
    bind: CoreBind,
    n: usize,
    avail: Seq<Token>,
    tails: Seq<Seq<Token>>,
    exits: Option<Seq<Seq<Token>>>,
)
    requires
        at_hand(avail, n),
    ensures
        ({
            let e = Term::If { cond, yes: Box::new(yes), no: Box::new(no), ty };
            let out = paired(e, avail, tails, exits).term;
            &&& makes(yes, n) ==> overwrites(*out->yes)
            &&& makes(no, n) ==> overwrites(*out->no)
        }),
        ({
            let e = Term::Match { scrut, arms, ty };
            let out = paired(e, avail, tails, exits).term;
            0 <= k < arms.len() && makes(arms[k].1, n) ==> overwrites(out->arms[k].1)
        }),
        ({
            let e = Term::LetJoin { bind, join: Box::new(yes), body: Box::new(no) };
            let out = paired(e, avail, tails, exits).term;
            makes(yes, n) ==> overwrites(*out->join)
        }),
{
    if makes(yes, n) {
        what_is_at_hand_is_overwritten(yes, n, avail, tails, exits);
        what_is_at_hand_is_overwritten(yes, n, avail, tails, Some(Seq::empty()));
    }
    if makes(no, n) {
        let t = paired(yes, avail, tails, exits);
        what_is_at_hand_is_overwritten(no, n, avail, t.tails, t.exits);
    }
    if 0 <= k < arms.len() && makes(arms[k].1, n) {
        arm_has_it_at_hand(arms, k, n, avail, tails, exits);
    }
}

/// Each arm has at hand what the match has.
proof fn arm_has_it_at_hand(
    arms: Seq<(PatView, Term)>,
    k: int,
    n: usize,
    avail: Seq<Token>,
    tails: Seq<Seq<Token>>,
    exits: Option<Seq<Seq<Token>>>,
)
    requires
        0 <= k < arms.len(),
        makes(arms[k].1, n),
        at_hand(avail, n),
    ensures
        paired_arms(arms, avail, tails, exits).arms.len() == arms.len(),
        overwrites(paired_arms(arms, avail, tails, exits).arms[k].1),
    decreases arms.len(),
{
    let before = paired_arms(arms.drop_last(), avail, tails, exits);
    as_many_arms(arms.drop_last(), avail, tails, exits);
    if k == arms.len() - 1 {
        what_is_at_hand_is_overwritten(arms.last().1, n, avail, before.tails, before.exits);
    } else {
        arm_has_it_at_hand(arms.drop_last(), k, n, avail, tails, exits);
    }
}

/// A walk leaves as many arms.
proof fn as_many_arms(
    arms: Seq<(PatView, Term)>,
    avail: Seq<Token>,
    tails: Seq<Seq<Token>>,
    exits: Option<Seq<Seq<Token>>>,
)
    ensures
        paired_arms(arms, avail, tails, exits).arms.len() == arms.len(),
    decreases arms.len(),
{
    if arms.len() > 0 {
        as_many_arms(arms.drop_last(), avail, tails, exits);
    }
}

/// A continuation is jumped to from more than one place, so nothing is at hand in it; in the body
/// that jumps to it all is at hand that was.
pub proof fn a_continuation_has_nothing_at_hand(
    id: JoinId,
    cont: Term,
    body: Term,
    n: usize,
    avail: Seq<Token>,
    tails: Seq<Seq<Token>>,
    exits: Option<Seq<Seq<Token>>>,
)
    ensures
        ({
            let e = Term::LetCont { id, cont: Box::new(cont), body: Box::new(body) };
            let out = paired(e, avail, tails, exits).term;
            &&& first_made(cont) is Some ==> first_made(*out->cont) == first_made(cont)
            &&& makes(body, n) && at_hand(avail, n) ==> overwrites(*out->LetCont_body)
        }),
{
    let shared = paired(cont, Seq::empty(), tails, exits);
    if first_made(cont) is Some {
        with_nothing_at_hand_nothing_is_overwritten(cont, tails, exits);
    }
    if makes(body, n) && at_hand(avail, n) {
        what_is_at_hand_is_overwritten(body, n, avail, shared.tails, shared.exits);
    }
}

/// What is at hand stays so past a `let` that makes no cell, and past a join that makes none, unless
/// its slot is the one that is bound.
pub proof fn what_is_not_taken_stays_at_hand(
    bind: CoreBind,
    rhs: AtomView,
    body: Term,
    t: Token,
    avail: Seq<Token>,
    tails: Seq<Seq<Token>>,
    exits: Option<Seq<Seq<Token>>>,
)
    requires
        !(rhs is Ctor),
        avail.contains(t),
        !t.carried,
        t.slot != bind.id,
        makes(body, t.shape.fields),
    ensures
        ({
            let e = Term::Let { bind, rhs, body: Box::new(body) };
            overwrites(*paired(e, avail, tails, exits).term->Let_body)
        }),
        ({
            let e = Term::LetJoin { bind, join: Box::new(Term::Tail(rhs)), body: Box::new(body) };
            overwrites(*paired(e, avail, tails, exits).term->LetJoin_body)
        }),
{
    let n = t.shape.fields;
    cells_are_at_hand_until_bound(avail, bind.id, None, t);
    let left = besides(avail, bind.id);
    let i = choose|i: int| 0 <= i < left.len() && left[i] == t;
    assert(at_hand(left, n));
    what_is_at_hand_is_overwritten(body, n, left, tails, exits);
    let inner = paired(Term::Tail(rhs), avail, tails, Some(Seq::empty()));
    let lists = Seq::<Seq<Token>>::empty().push(avail);
    assert(inner.exits->0 == lists);
    what_is_shared_is_on_each(lists, t);
    let shared = on_all(lists);
    assert(shared.contains(t));
    cells_are_at_hand_until_bound(shared, bind.id, None, t);
    let rest = besides(shared, bind.id);
    let j = choose|j: int| 0 <= j < rest.len() && rest[j] == t;
    assert(at_hand(rest, n));
    what_is_at_hand_is_overwritten(body, n, rest, inner.tails, exits);
}

/// A loop that makes a cell, drops it and goes round again overwrites it the next time: the
/// constructor takes the cell of its own slot.
pub proof fn a_loop_overwrites_its_own_cell(bind: CoreBind, rhs: AtomView, args: Seq<LocalId>)
    requires
        rhs is Ctor,
        rhs->fields.len() > 0,
        rhs->fields.len() <= usize::MAX,
        rhs->reuse is None,
    ensures
        ({
            let n = rhs->fields.len() as usize;
            let again = Term::Tail(AtomView::Call { callee: Callee::Self_, args });
            let dropped = Term::Drop { local: bind.id, shape: Some(ReuseShape { fields: n }), body: Box::new(again) };
            let e = Term::Let { bind, rhs, body: Box::new(dropped) };
            first_made(reused(e)) == Some(
                AtomView::Ctor { variant: rhs->Ctor_variant, fields: rhs->fields, reuse: Some(bind.id) },
            )
        }),
{
    let n = rhs->fields.len() as usize;
    let again = Term::Tail(AtomView::Call { callee: Callee::Self_, args });
    let dropped = Term::Drop { local: bind.id, shape: Some(ReuseShape { fields: n }), body: Box::new(again) };
    let e = Term::Let { bind, rhs, body: Box::new(dropped) };
    let none = Seq::<Token>::empty();
    let first = paired(e, none, Seq::empty(), None);
    constructors_take_what_fits(bind.id, rhs, none);
    assert(besides(none, bind.id) =~= none) by {
        reveal(Seq::filter);
    }
    let t = Token { slot: bind.id, shape: ReuseShape { fields: n }, carried: false };
    let one = none.push(t);
    assert(parked(none, bind.id, Some(ReuseShape { fields: n })) == one);
    reveal_with_fuel(paired, 4);
    let lists = Seq::<Seq<Token>>::empty().push(one);
    assert(first.tails == lists);
    assert(first.term == e);
    what_is_shared_is_on_each(lists, t);
    let all = on_all(lists);
    let k = choose|k: int| 0 <= k < all.len() && all[k] == t;
    let carried = seed(lists)->0;
    assert(seed(lists) is Some);
    assert(carried[k] == (Token { carried: true, ..t }));
    constructors_take_what_fits(bind.id, rhs, carried);
    assert(is_for(carried[k], rhs));
    assert forall|m: int| 0 <= m < carried.len() implies (#[trigger] carried[m]).slot == bind.id by {
        assert(all.contains(all[m]));
        what_is_shared_is_on_each(lists, all[m]);
        assert(lists[0].contains(all[m]));
        assert(carried[m] == (Token { carried: true, ..all[m] }));
    }
}

/// A self tail call inside a join does not go round the loop: the join's value is still wanted.
pub proof fn a_call_in_a_join_is_no_turn(
    args: Seq<LocalId>,
    avail: Seq<Token>,
    tails: Seq<Seq<Token>>,
    exits: Seq<Seq<Token>>,
)
    ensures
        ({
            let e = Term::Tail(AtomView::Call { callee: Callee::Self_, args });
            let inside = paired(e, avail, tails, Some(exits));
            let outside = paired(e, avail, tails, None);
            &&& inside.tails == tails
            &&& inside.exits == Some(exits.push(avail))
            &&& outside.tails == tails.push(avail)
            &&& outside.exits is None
        }),
{
}

} // verus!
