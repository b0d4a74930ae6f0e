//! When references are released: as early as they can be, and with the size of their cell.
use vstd::prelude::*;

use crate::core_ir::balance::ascending_facts;
use crate::core_ir::drops::{
    arm_drops, dropped, dropped_arms, dropped_tail, finished_arm, join_exit, with_cont, wrapped, Arm, Cx, ExitView,
};
use crate::core_ir::ids::{ascending, ascending_exists};
use crate::core_ir::nodes::{nodes_of, some_arm, some_node};
use crate::core_ir::reuse::{besides, last_where, let_take, on_all, on_each, parked, tail_take, Token};
use crate::core_ir::types::{RTy, RType, ResolvedPool};
use crate::core_ir::{AtomView, CoreBind, LocalId, PatView, ReuseShape, Term};

verus! {

/// The locals that a body drops before anything else.
pub open spec fn dropped_first(e: Term) -> Set<u32>
    decreases e,
{
    match e {
        Term::Drop { local, shape, body } => dropped_first(*body).insert(local.0),
        _ => Set::empty(),
    }
}

/// A node is a `let` after which something is dropped that it neither reads nor binds: it could
/// have been dropped before.
pub open spec fn drops_late() -> spec_fn(Term) -> bool {
    |t: Term|
        match t {
            Term::Let { bind, rhs, body } => exists|x: u32| #[trigger]
                dropped_first(*body).contains(x) && x != bind.id.0 && !rhs.operands().contains(LocalId(x)),
            _ => false,
        }
}

/// What is wrapped drops what it is wrapped in, and then what it did.
proof fn wrapping_drops_first(
    pool: ResolvedPool,
    cx: Cx,
    dead: Seq<LocalId>,
    arm: Option<(LocalId, ReuseShape)>,
    body: Term,
)
    ensures
        forall|x: u32| #[trigger]
            dropped_first(wrapped(pool, cx, dead, arm, body)).contains(x) ==> dead.contains(LocalId(x)) || dropped_first(
                body,
            ).contains(x),
        some_node(wrapped(pool, cx, dead, arm, body), drops_late()) <==> some_node(body, drops_late()),
    decreases dead.len(),
{
    if dead.len() > 0 {
        let rest = dead.drop_first();
        wrapping_drops_first(pool, cx, rest, arm, body);
        let w = wrapped(pool, cx, dead, arm, body);
        nodes_of(w, drops_late());
        assert forall|x: u32| #[trigger] dropped_first(w).contains(x) implies dead.contains(LocalId(x)) || dropped_first(
            body,
        ).contains(x) by {
            if rest.contains(LocalId(x)) {
                let i = choose|i: int| 0 <= i < rest.len() && rest[i] == LocalId(x);
                assert(dead[i + 1] == LocalId(x));
            }
            if x == dead[0].0 {
                assert(dead[0] == LocalId(x));
            }
        }
    }
}

/// What the pass makes starts with no release: what is to go first goes before it.
proof fn starts_with_no_release(pool: ResolvedPool, cx: Cx, e: Term, exit: ExitView)
    ensures
        !(dropped(pool, cx, e, exit).term is Drop),
    decreases e,
{
    if let Term::Drop { local, shape, body } = e {
        starts_with_no_release(pool, cx, *body, exit);
    }
}

/// References are released as early as they can be: after a `let`, the drop pass drops only what
/// that `let` read or bound, so nothing is kept past its last read along a body.
pub proof fn nothing_is_dropped_late(pool: ResolvedPool, cx: Cx, e: Term, exit: ExitView)
    ensures
        !some_node(dropped(pool, cx, e, exit).term, drops_late()),
    decreases e,
{
    let d = dropped(pool, cx, e, exit);
    let late = drops_late();
    nodes_of(d.term, late);
    match e {
        Term::Let { bind, rhs, body } => {
            let cx1 = cx.record(bind, rhs.shape());
            let b = dropped(pool, cx1, *body, exit);
            nothing_is_dropped_late(pool, cx1, *body, exit);
            starts_with_no_release(pool, cx1, *body, exit);
            let gone = rhs.reads().difference(b.live);
            let tail = if !b.live.contains(bind.id.0) {
                seq![bind.id]
            } else {
                Seq::<LocalId>::empty()
            };
            let dead = ascending(gone) + tail;
            ascending_facts(gone);
            wrapping_drops_first(pool, b.cx, dead, None, b.term);
            assert forall|x: u32| dead.contains(LocalId(x)) implies x == bind.id.0 || rhs.operands().contains(LocalId(x)) by {
                let i = choose|i: int| 0 <= i < dead.len() && dead[i] == LocalId(x);
                if i < ascending(gone).len() {
                    assert(gone.contains(ascending(gone)[i].0));
                }
            }
        },
        Term::LetJoin { bind, join, body } => {
            let cx1 = cx.record(bind, None);
            let b = dropped(pool, cx1, *body, exit);
            let out = join_exit(bind, b);
            nothing_is_dropped_late(pool, cx1, *body, exit);
            nothing_is_dropped_late(pool, b.cx, *join, out);
            let j = dropped(pool, b.cx, *join, out);
            wrapping_drops_first(pool, j.cx, seq![bind.id], None, b.term);
        },
        Term::LetCont { id, cont, body } => {
            let c = dropped(pool, cx, *cont, exit);
            nothing_is_dropped_late(pool, cx, *cont, exit);
            nothing_is_dropped_late(pool, with_cont(c.cx, id, c.live), *body, exit);
        },
        Term::Drop { local, shape, body } => {
            nothing_is_dropped_late(pool, cx, *body, exit);
        },
        Term::Tail(a) => {
            match exit {
                ExitView::Return => {},
                ExitView::Join { ty, after } => {
                    if d.term is Let {
                        let gone = a.reads().difference(after);
                        let all = ascending(gone);
                        let f = |x: LocalId| cx.heap(pool, x);
                        ascending_facts(gone);
                        let minted = cx.mint(ty, a.shape());
                        let bind = cx.fresh(ty);
                        let value = if minted.heap(pool, bind.id) {
                            AtomView::Move(bind.id)
                        } else {
                            AtomView::Local(bind.id)
                        };
                        wrapping_drops_first(pool, minted, all.filter(f), None, Term::Tail(value));
                        nodes_of(Term::Tail(value), late);
                        assert forall|x: u32| all.filter(f).contains(LocalId(x)) implies a.operands().contains(LocalId(x)) by {
                            crate::core_ir::balance::filter_members(all, f, LocalId(x));
                            let i = choose|i: int| 0 <= i < all.len() && all[i] == LocalId(x);
                            assert(gone.contains(all[i].0));
                        }
                    }
                },
            }
        },
        Term::Goto(id) => {},
        Term::If { cond, yes, no, ty } => {
            let t = dropped(pool, cx, *yes, exit);
            let f = dropped(pool, t.cx, *no, exit);
            nothing_is_dropped_late(pool, cx, *yes, exit);
            nothing_is_dropped_late(pool, t.cx, *no, exit);
            wrapping_drops_first(pool, f.cx, ascending(f.live.difference(t.live)), None, t.term);
            wrapping_drops_first(pool, f.cx, ascending(t.live.difference(f.live)), None, f.term);
        },
        Term::Match { scrut, arms, ty } => {
            nothing_in_arms_is_dropped_late(pool, cx, scrut, arms, exit);
            let all = dropped_arms(pool, cx, scrut, arms, exit);
            let out = d.term->arms;
            assert forall|i: int| 0 <= i < out.len() implies !(#[trigger] some_node(out[i].1, late)) by {
                let a = all.arms[i];
                let over = match a.scrut_shape {
                    Some(s) => Some((scrut, s)),
                    None => None,
                };
                assert(out[i] == finished_arm(pool, all.cx, all.live, scrut, a));
                wrapping_drops_first(pool, all.cx, arm_drops(all.live, scrut, a), over, a.term);
            }
        },
    }
}

proof fn nothing_in_arms_is_dropped_late(
    pool: ResolvedPool,
    cx: Cx,
    scrut: LocalId,
    arms: Seq<(PatView, Term)>,
    exit: ExitView,
)
    ensures
        forall|i: int|
            0 <= i < dropped_arms(pool, cx, scrut, arms, exit).arms.len() ==> !(#[trigger] some_node(
                dropped_arms(pool, cx, scrut, arms, exit).arms[i].term,
                drops_late(),
            )),
    decreases arms,
{
    if arms.len() > 0 {
        let rest = arms.drop_last();
        nothing_in_arms_is_dropped_late(pool, cx, scrut, rest, exit);
        let before = dropped_arms(pool, cx, scrut, rest, exit);
        nothing_is_dropped_late(pool, before.cx.record_pat(arms.last().0, scrut), arms.last().1, exit);
        let all = dropped_arms(pool, cx, scrut, arms, exit);
        assert forall|i: int| 0 <= i < all.arms.len() implies !(#[trigger] some_node(all.arms[i].term, drops_late())) by {
            if i < before.arms.len() {
                assert(all.arms[i] == before.arms[i]);
                assert(!some_node(before.arms[i].term, drops_late()));
            }
        }
    }
}

/// A node reads `x`, or jumps to where it may be read.
pub open spec fn reads_or_jumps(x: u32) -> spec_fn(Term) -> bool {
    |t: Term|
        match t {
            Term::Let { bind, rhs, body } => rhs.operands().contains(LocalId(x)),
            Term::Tail(a) => a.operands().contains(LocalId(x)),
            Term::If { cond, yes, no, ty } => cond.0 == x,
            Term::Match { scrut, arms, ty } => scrut.0 == x,
            Term::Goto(id) => true,
            _ => false,
        }
}

/// What comes after a body reads `x`.
pub open spec fn read_after(exit: ExitView, x: u32) -> bool {
    match exit {
        ExitView::Return => false,
        ExitView::Join { ty, after } => after.contains(x),
    }
}

/// A body owns nothing for nothing: what the drop pass leaves to its surroundings to hand to it is
/// read in it, or where it jumps to, or after it.
pub proof fn what_is_handed_in_is_read(pool: ResolvedPool, cx: Cx, e: Term, exit: ExitView, x: u32)
    requires
        dropped(pool, cx, e, exit).live.contains(x),
    ensures
        some_node(e, reads_or_jumps(x)) || read_after(exit, x),
    decreases e,
{
    nodes_of(e, reads_or_jumps(x));
    match e {
        Term::Let { bind, rhs, body } => {
            let cx1 = cx.record(bind, rhs.shape());
            if dropped(pool, cx1, *body, exit).live.contains(x) {
                what_is_handed_in_is_read(pool, cx1, *body, exit, x);
            }
        },
        Term::LetJoin { bind, join, body } => {
            let cx1 = cx.record(bind, None);
            let b = dropped(pool, cx1, *body, exit);
            what_is_handed_in_is_read(pool, b.cx, *join, join_exit(bind, b), x);
            if b.live.contains(x) {
                what_is_handed_in_is_read(pool, cx1, *body, exit, x);
            }
        },
        Term::LetCont { id, cont, body } => {
            let c = dropped(pool, cx, *cont, exit);
            what_is_handed_in_is_read(pool, with_cont(c.cx, id, c.live), *body, exit, x);
        },
        Term::Drop { local, shape, body } => {
            what_is_handed_in_is_read(pool, cx, *body, exit, x);
        },
        Term::Tail(a) => {},
        Term::Goto(id) => {},
        Term::If { cond, yes, no, ty } => {
            let t = dropped(pool, cx, *yes, exit);
            if t.live.contains(x) {
                what_is_handed_in_is_read(pool, cx, *yes, exit, x);
            }
            if dropped(pool, t.cx, *no, exit).live.contains(x) {
                what_is_handed_in_is_read(pool, t.cx, *no, exit, x);
            }
        },
        Term::Match { scrut, arms, ty } => {
            if dropped_arms(pool, cx, scrut, arms, exit).live.contains(x) {
                what_arms_are_handed_is_read(pool, cx, scrut, arms, exit, x);
            }
        },
    }
}

proof fn what_arms_are_handed_is_read(
    pool: ResolvedPool,
    cx: Cx,
    scrut: LocalId,
    arms: Seq<(PatView, Term)>,
    exit: ExitView,
    x: u32,
)
    requires
        dropped_arms(pool, cx, scrut, arms, exit).live.contains(x),
    ensures
        (exists|i: int| 0 <= i < arms.len() && #[trigger] some_node(arms[i].1, reads_or_jumps(x))) || read_after(exit, x),
    decreases arms,
{
    if arms.len() > 0 {
        let rest = arms.drop_last();
        let before = dropped_arms(pool, cx, scrut, rest, exit);
        some_arm(arms, reads_or_jumps(x));
        if before.live.contains(x) {
            what_arms_are_handed_is_read(pool, cx, scrut, rest, exit, x);
        } else {
            what_is_handed_in_is_read(pool, before.cx.record_pat(arms.last().0, scrut), arms.last().1, exit, x);
        }
    }
}

/// An atom reads the locals that it names: the one that it is, or the arguments or the fields
/// that it is made with.
pub proof fn atoms_read_what_they_name(a: AtomView, n: u32)
    ensures
        a == AtomView::Local(LocalId(n)) || a == AtomView::Move(LocalId(n)) ==> a.reads().contains(n),
        a is Const || a is Nil ==> !a.reads().contains(n),
        a is Prim ==> (a.reads().contains(n) <==> a->Prim_args.contains(LocalId(n))),
        a is Call ==> (a.reads().contains(n) <==> a->Call_args.contains(LocalId(n))),
        a is Ctor ==> (a.reads().contains(n) <==> a->fields.contains(LocalId(n))),
        (a is Local || a is Move) && a.reads().contains(n) ==> a == AtomView::Local(LocalId(n)) || a == AtomView::Move(
            LocalId(n),
        ),
        a.shape() is Some <==> a is Ctor,
        a is Ctor ==> a.shape()->0.fields == a->fields.len() as usize,
{
    if a == AtomView::Local(LocalId(n)) || a == AtomView::Move(LocalId(n)) {
        assert(a.operands()[0] == LocalId(n));
    }
}

/// A drop has the size of the cell: of a constructor pattern that matched, as many words as it
/// has fields, and of what a bind was given, as many as its constructor was made with.
pub proof fn sizes_are_of_fields(cx: Cx, b: CoreBind, a: AtomView, pat: PatView, scrut: LocalId)
    ensures
        pat is Ctor ==> cx.arm_shape(pat, scrut) == Some(ReuseShape { fields: pat->Ctor_fields.len() as usize }),
        !(pat is Ctor) ==> cx.arm_shape(pat, scrut) == cx.shape_of(scrut),
        a is Ctor ==> cx.record(b, a.shape()).shape_of(b.id) == Some(ReuseShape { fields: a->fields.len() as usize }),
        pat is Bind && cx.shape_of(scrut) is Some ==> cx.record_pat(pat, scrut).shape_of(pat->Bind_0.id) == cx.shape_of(scrut),
{
}

/// Releases come in order: after a `let` what it read, from the lowest local up, and its own bind
/// last; at the head of an arm what only other arms read, from the lowest local up, and after it the
/// scrutinee, unless some arm reads it again, and what the pattern binds and nothing reads.
pub proof fn releases_come_in_order(live: Set<u32>, scrut: LocalId, arm: Arm)
    ensures
        ({
            let all = arm_drops(live, scrut, arm);
            let others = ascending(live.difference(arm.live));
            let n = others.len() as int;
            &&& all.take(n) == others
            &&& forall|i: int, j: int| 0 <= i < j < n ==> all[i].0 < all[j].0
            &&& forall|i: int| 0 <= i < n ==> live.contains(#[trigger] all[i].0) && !arm.live.contains(all[i].0)
            &&& !live.contains(scrut.0) ==> all[n] == scrut && all.skip(n + 1) == arm.dead_binders
            &&& live.contains(scrut.0) ==> all.skip(n) == arm.dead_binders
        }),
{
    let all = arm_drops(live, scrut, arm);
    let others = ascending(live.difference(arm.live));
    let n = others.len() as int;
    ascending_facts(live.difference(arm.live));
    ascending_exists(live.difference(arm.live));
    assert(all.take(n) =~= others);
    assert forall|i: int, j: int| 0 <= i < j < n implies all[i].0 < all[j].0 by {
        assert(all[i] == others[i] && all[j] == others[j]);
    }
    assert forall|i: int| 0 <= i < n implies live.contains(#[trigger] all[i].0) && !arm.live.contains(all[i].0) by {
        assert(all[i] == others[i]);
        assert(live.difference(arm.live).contains(others[i].0));
    }
    if live.contains(scrut.0) {
        assert(all.skip(n) =~= arm.dead_binders);
    } else {
        assert(all.skip(n + 1) =~= arm.dead_binders);
    }
}

/// A release carries the size that is known of the cell, and in an arm the size that its pattern
/// proves of the scrutinee; what cannot hold a cell is not released.
pub proof fn releases_carry_the_size(
    pool: ResolvedPool,
    cx: Cx,
    x: LocalId,
    rest: Seq<LocalId>,
    arm: Option<(LocalId, ReuseShape)>,
    body: Term,
)
    ensures
        ({
            let w = wrapped(pool, cx, seq![x] + rest, arm, body);
            &&& !cx.heap(pool, x) ==> w == wrapped(pool, cx, rest, arm, body)
            &&& cx.heap(pool, x) ==> {
                &&& w is Drop
                &&& w->Drop_local == x
                &&& *w->Drop_body == wrapped(pool, cx, rest, arm, body)
                &&& arm is Some && (arm->0).0 == x ==> w->shape == Some((arm->0).1)
                &&& arm is None || (arm->0).0 != x ==> w->shape == cx.shape_of(x)
            }
            &&& wrapped(pool, cx, Seq::empty(), arm, body) == body
        }),
{
    assert((seq![x] + rest).drop_first() =~= rest);
}

/// A value that leaves a function is handed over as it is; one that is the last read of a local on
/// its way into a join is moved, without a new local, and one that reads nothing for the last time is
/// handed over as it is there too.
pub proof fn a_last_read_is_moved(pool: ResolvedPool, cx: Cx, a: AtomView, ty: RTy, after: Set<u32>, x: LocalId)
    ensures
        dropped_tail(pool, cx, a, ExitView::Return).term == Term::Tail(a),
        dropped_tail(pool, cx, a, ExitView::Return).live == a.reads(),
        (forall|n: u32| #[trigger] a.reads().contains(n) ==> after.contains(n)) ==> dropped_tail(
            pool,
            cx,
            a,
            ExitView::Join { ty, after },
        ).term == Term::Tail(a),
        !after.contains(x.0) && cx.heap(pool, x) ==> dropped_tail(
            pool,
            cx,
            AtomView::Local(x),
            ExitView::Join { ty, after },
        ).term == Term::Tail(AtomView::Move(x)),
        !cx.heap(pool, x) ==> dropped_tail(pool, cx, AtomView::Local(x), ExitView::Join { ty, after }).term == Term::Tail(
            AtomView::Local(x),
        ),
{
    let one = AtomView::Local(x);
    let f = |x: LocalId| cx.heap(pool, x);
    let gone = a.reads().difference(after);
    ascending_facts(gone);
    if forall|n: u32| #[trigger] a.reads().contains(n) ==> after.contains(n) {
        let all = ascending(gone);
        if all.len() > 0 {
            assert(gone.contains(all[0].0));
            assert(a.reads().contains(all[0].0));
        }
        assert(all.len() == 0);
        reveal(Seq::filter);
        assert(all.filter(f) =~= Seq::<LocalId>::empty());
    }
    let left = one.reads().difference(after);
    ascending_facts(left);
    let list = ascending(left);
    assert(one.operands()[0] == x);
    assert forall|n: u32| one.reads().contains(n) implies n == x.0 by {}
    if !after.contains(x.0) && cx.heap(pool, x) {
        assert(left.contains(x.0));
        assert(list.contains(x));
        crate::core_ir::balance::filter_members(list, f, x);
    }
    if !cx.heap(pool, x) {
        if list.filter(f).len() > 0 {
            let y = list.filter(f)[0];
            assert(list.filter(f).contains(y));
            crate::core_ir::balance::filter_members(list, f, y);
            assert(list.contains(y));
            assert(left.contains(y.0));
        }
        assert(list.filter(f).len() == 0);
    }
}

/// A type's values are words only where it is one of the three nominal types that are: all other
/// nominal types, and what any type may stand for, may be cells.
pub proof fn only_words_are_no_cells(pool: ResolvedPool, t: RTy)
    requires
        t.0 < pool@.len(),
    ensures
        !pool.heap(t) <==> pool@[t.0 as int] == RType::Con(pool.words().int) || pool@[t.0 as int] == RType::Con(
            pool.words().bool_,
        ) || pool@[t.0 as int] == RType::Con(pool.words().nil),
{
}

/// The last of some tokens that `p` picks: `p` picks it, and none after it.
pub proof fn the_last_is_picked(q: Seq<Token>, p: spec_fn(Token) -> bool)
    ensures
        match last_where(q, p) {
            Some(i) => 0 <= i < q.len() && p(q[i]) && forall|j: int| i < j < q.len() ==> !p(#[trigger] q[j]),
            None => forall|j: int| 0 <= j < q.len() ==> !p(#[trigger] q[j]),
        },
    decreases q.len(),
{
    if q.len() > 0 && !p(q.last()) {
        the_last_is_picked(q.drop_last(), p);
        assert forall|j: int| 0 <= j < q.len() - 1 implies q[j] == #[trigger] q.drop_last()[j] by {}
        match last_where(q, p) {
            Some(i) => {
                assert forall|j: int| i < j < q.len() implies !p(#[trigger] q[j]) by {
                    if j < q.len() - 1 {
                        assert(!p(q.drop_last()[j]));
                    }
                }
            },
            None => {
                assert forall|j: int| 0 <= j < q.len() implies !p(#[trigger] q[j]) by {
                    if j < q.len() - 1 {
                        assert(!p(q.drop_last()[j]));
                    }
                }
            },
        }
    }
}

/// A token is for a cell of as many words as the constructor `a` fills.
pub open spec fn is_for(t: Token, a: AtomView) -> bool {
    a is Ctor && t.shape.fields == a->fields.len() as usize
}

/// A constructor overwrites a cell whenever one of its size is at hand, and else none: the one in
/// its own slot first, or else the one that was parked last in this round. What it takes is taken
/// once, and nothing else about it changes.
pub proof fn constructors_take_what_fits(bind: LocalId, a: AtomView, avail: Seq<Token>)
    ensures
        ({
            let (b, left) = let_take(bind, a, avail);
            let some = exists|i: int|
                0 <= i < avail.len() && is_for(#[trigger] avail[i], a) && (avail[i].slot == bind || !avail[i].carried);
            if some {
                exists|i: int|
                    {
                        &&& 0 <= i < avail.len()
                        &&& is_for(#[trigger] avail[i], a)
                        &&& left == avail.remove(i)
                        &&& b == (AtomView::Ctor {
                            variant: a->Ctor_variant,
                            fields: a->fields,
                            reuse: Some(avail[i].slot),
                        })
                        &&& avail[i].slot == bind || (!avail[i].carried && forall|j: int|
                            0 <= j < avail.len() && is_for(#[trigger] avail[j], a) ==> avail[j].slot != bind && (j <= i || avail[j].carried))
                    }
            } else {
                b == a && left == avail
            }
        }),
{
    if a is Ctor {
        let want = ReuseShape { fields: a->fields.len() as usize };
        let own = |t: Token| t.slot == bind && t.shape == want;
        let any = |t: Token| !t.carried && t.shape == want;
        the_last_is_picked(avail, own);
        the_last_is_picked(avail, any);
        assert forall|t: Token| is_for(t, a) <==> #[trigger] t.shape == want by {
            assert(t.shape == want <==> t.shape.fields == want.fields);
        }
        match last_where(avail, own) {
            Some(i) => {
                assert(is_for(avail[i], a));
            },
            None => {
                match last_where(avail, any) {
                    Some(i) => {
                        assert(is_for(avail[i], a));
                    },
                    None => {},
                }
            },
        }
    }
}

/// At a `Tail` too, with no slot of its own to look in first.
pub proof fn tails_take_what_fits(a: AtomView, avail: Seq<Token>)
    ensures
        ({
            let (b, left) = tail_take(a, avail);
            let some = exists|i: int| 0 <= i < avail.len() && is_for(#[trigger] avail[i], a) && !avail[i].carried;
            if some {
                exists|i: int|
                    {
                        &&& 0 <= i < avail.len()
                        &&& is_for(#[trigger] avail[i], a)
                        &&& !avail[i].carried
                        &&& left == avail.remove(i)
                        &&& b == (AtomView::Ctor {
                            variant: a->Ctor_variant,
                            fields: a->fields,
                            reuse: Some(avail[i].slot),
                        })
                        &&& forall|j: int| i < j < avail.len() && is_for(#[trigger] avail[j], a) ==> avail[j].carried
                    }
            } else {
                b == a && left == avail
            }
        }),
{
    if a is Ctor {
        let want = ReuseShape { fields: a->fields.len() as usize };
        let any = |t: Token| !t.carried && t.shape == want;
        the_last_is_picked(avail, any);
        assert forall|t: Token| is_for(t, a) <==> #[trigger] t.shape == want by {
            assert(t.shape == want <==> t.shape.fields == want.fields);
        }
        match last_where(avail, any) {
            Some(i) => {
                assert(is_for(avail[i], a));
            },
            None => {},
        }
    }
}

/// A cell that is dropped is at hand from then on, if it is known to have words; one whose slot is
/// bound anew is not.
pub proof fn cells_are_at_hand_until_bound(avail: Seq<Token>, local: LocalId, shape: Option<ReuseShape>, t: Token)
    ensures
        parked(avail, local, shape).contains(t) <==> avail.contains(t) || (shape == Some(t.shape) && t.shape.fields > 0
            && t.slot == local && !t.carried),
        besides(avail, local).contains(t) <==> avail.contains(t) && t.slot != local,
{
    let p = parked(avail, local, shape);
    if avail.contains(t) {
        let i = choose|i: int| 0 <= i < avail.len() && avail[i] == t;
        assert(p[i] == t);
    }
    if p.contains(t) {
        let i = choose|i: int| 0 <= i < p.len() && p[i] == t;
        if i < avail.len() {
            assert(avail[i] == t);
        }
    }
    if shape == Some(t.shape) && t.shape.fields > 0 && t.slot == local && !t.carried {
        assert(p[avail.len() as int] == t);
    }
    let f = |t: Token| t.slot != local;
    if avail.contains(t) && t.slot != local {
        let i = choose|i: int| 0 <= i < avail.len() && avail[i] == t;
        avail.lemma_filter_contains(f, i);
    }
    if besides(avail, local).contains(t) {
        avail.lemma_filter_contains_rev(f, t);
        let i = choose|i: int| 0 <= i < avail.filter(f).len() && avail.filter(f)[i] == t;
        avail.lemma_filter_pred(f, i);
    }
}

/// What paths share is what is on the list of each of them.
pub proof fn what_is_shared_is_on_each(lists: Seq<Seq<Token>>, t: Token)
    requires
        lists.len() > 0,
    ensures
        on_all(lists).contains(t) <==> forall|k: int| 0 <= k < lists.len() ==> (#[trigger] lists[k]).contains(t),
{
    let f = |t: Token| on_each(lists, t);
    if on_all(lists).contains(t) {
        lists[0].lemma_filter_contains_rev(f, t);
        let i = choose|i: int| 0 <= i < lists[0].filter(f).len() && lists[0].filter(f)[i] == t;
        lists[0].lemma_filter_pred(f, i);
    }
    if on_each(lists, t) {
        assert(lists[0].contains(t));
        let i = choose|i: int| 0 <= i < lists[0].len() && lists[0][i] == t;
        lists[0].lemma_filter_contains(f, i);
    }
}

} // verus!
