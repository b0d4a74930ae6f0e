//! The drop pass run on its own output, joins included.
use vstd::prelude::*;

use crate::core_ir::balance::{
    arms_are_balanced, arms_binders, arms_labels, arms_ready, ascending_facts, binders, drop_pass_is_balanced,
    filter_members, fn_env, labels, lowered_fn, numbered_below, numbers, ready, record_pat_facts, surroundings_in_more, with_bind, with_binds,
    with_binds_facts, Env,
};
use crate::core_ir::drops::{
    arm_drops, arm_of, bound_set, dropped, dropped_arms, dying, failure_stays, finished_arm, ids_of, join_exit, rebuilt_join, rebuilt_let, record_all_keeps, with_cont,
    wrapped, Arm, Cx, ExitView,
};
use crate::core_ir::extent::fn_end;
use crate::core_ir::ids::ascending;
use crate::core_ir::perceus::{dropped_fn, entry, start};
use crate::core_ir::types::{RTy, ResolvedPool};
use crate::core_ir::{AtomView, CoreBind, CoreFn, LocalId, PatView, ReuseShape, Term};

verus! {

/// Both know the same of the local numbered `x`.
pub open spec fn same_on(a: Cx, b: Cx, x: u32) -> bool {
    &&& b.ty.contains_key(x) <==> a.ty.contains_key(x)
    &&& b.ty[x] == a.ty[x]
    &&& b.shape_of(LocalId(x)) == a.shape_of(LocalId(x))
}

/// `b` knows what `a` knew of the locals below `top` but `bs`, and of the continuations but `ls`.
pub open spec fn keeps(a: Cx, b: Cx, bs: Set<u32>, ls: Set<u32>, top: int) -> bool {
    &&& forall|x: u32| !bs.contains(x) && x < top ==> #[trigger] same_on(a, b, x)
    &&& forall|l: u32|
        !ls.contains(l) ==> (#[trigger] b.conts.contains_key(l) <==> a.conts.contains_key(l)) && b.conts[l]
            == a.conts[l]
}

/// What is recorded of a pattern is recorded of its binds.
proof fn record_pat_keeps(cx: Cx, pat: PatView, scrut: LocalId, x: u32)
    requires
        !bound_set(pat).contains(x),
    ensures
        same_on(cx, cx.record_pat(pat, scrut), x),
{
    record_pat_facts(cx, pat, scrut);
    record_all_keeps(cx, pat.binds());
    with_binds_facts(Map::empty(), pat.binds(), cx);
    assert(!ids_of(pat.binds()).contains(LocalId(x)));
    assert(cx.record_all(pat.binds()).ty.contains_key(x) <==> cx.ty.contains_key(x));
    match pat {
        PatView::Bind(b) => {
            assert(ids_of(pat.binds())[0] == b.id);
        },
        _ => {},
    }
}

/// The drop pass learns only of what the body names and of what it mints itself.
proof fn dropping_keeps(pool: ResolvedPool, cx: Cx, e: Term, exit: ExitView)
    requires
        dropped(pool, cx, e, exit).cx.ok,
        0 <= cx.next,
    ensures
        cx.next <= dropped(pool, cx, e, exit).cx.next,
        keeps(cx, dropped(pool, cx, e, exit).cx, binders(e), labels(e), cx.next),
    decreases e,
{
    let d = dropped(pool, cx, e, exit);
    match e {
        Term::Let { bind, rhs, body } => {
            let cx1 = cx.record(bind, rhs.shape());
            dropping_keeps(pool, cx1, *body, exit);
            assert forall|x: u32| !binders(e).contains(x) && x < cx.next implies #[trigger] same_on(cx, d.cx, x) by {
                assert(same_on(cx1, d.cx, x));
            }
        },
        Term::LetJoin { bind, join, body } => {
            let cx1 = cx.record(bind, None);
            let b = dropped(pool, cx1, *body, exit);
            failure_stays(pool, b.cx, *join, join_exit(bind, b));
            dropping_keeps(pool, cx1, *body, exit);
            dropping_keeps(pool, b.cx, *join, join_exit(bind, b));
            assert forall|x: u32| !binders(e).contains(x) && x < cx.next implies #[trigger] same_on(cx, d.cx, x) by {
                assert(same_on(cx1, b.cx, x));
                assert(same_on(b.cx, d.cx, x));
            }
            assert forall|l: u32| !labels(e).contains(l) implies (#[trigger] d.cx.conts.contains_key(l)
                <==> cx.conts.contains_key(l)) && d.cx.conts[l] == cx.conts[l] by {
                assert(b.cx.conts.contains_key(l) <==> cx1.conts.contains_key(l));
            }
        },
        Term::LetCont { id, cont, body } => {
            let c = dropped(pool, cx, *cont, exit);
            let cx2 = with_cont(c.cx, id, c.live);
            failure_stays(pool, cx2, *body, exit);
            dropping_keeps(pool, cx, *cont, exit);
            dropping_keeps(pool, cx2, *body, exit);
            assert forall|x: u32| !binders(e).contains(x) && x < cx.next implies #[trigger] same_on(cx, d.cx, x) by {
                assert(same_on(cx, c.cx, x));
                assert(same_on(cx2, d.cx, x));
            }
            assert forall|l: u32| !labels(e).contains(l) implies (#[trigger] d.cx.conts.contains_key(l)
                <==> cx.conts.contains_key(l)) && d.cx.conts[l] == cx.conts[l] by {
                assert(d.cx.conts.contains_key(l) <==> cx2.conts.contains_key(l));
                assert(c.cx.conts.contains_key(l) <==> cx.conts.contains_key(l));
            }
        },
        Term::Drop { local, shape, body } => {
            dropping_keeps(pool, cx, *body, exit);
        },
        Term::Tail(a) => {},
        Term::Goto(id) => {},
        Term::If { cond, yes, no, ty } => {
            let t = dropped(pool, cx, *yes, exit);
            failure_stays(pool, t.cx, *no, exit);
            dropping_keeps(pool, cx, *yes, exit);
            dropping_keeps(pool, t.cx, *no, exit);
            assert forall|x: u32| !binders(e).contains(x) && x < cx.next implies #[trigger] same_on(cx, d.cx, x) by {
                assert(same_on(cx, t.cx, x));
                assert(same_on(t.cx, d.cx, x));
            }
            assert forall|l: u32| !labels(e).contains(l) implies (#[trigger] d.cx.conts.contains_key(l)
                <==> cx.conts.contains_key(l)) && d.cx.conts[l] == cx.conts[l] by {
                assert(t.cx.conts.contains_key(l) <==> cx.conts.contains_key(l));
            }
        },
        Term::Match { scrut, arms, ty } => {
            dropping_arms_keeps(pool, cx, scrut, arms, exit);
        },
    }
}

proof fn dropping_arms_keeps(
    pool: ResolvedPool,
    cx: Cx,
    scrut: LocalId,
    arms: Seq<(PatView, Term)>,
    exit: ExitView,
)
    requires
        dropped_arms(pool, cx, scrut, arms, exit).cx.ok,
        0 <= cx.next,
    ensures
        cx.next <= dropped_arms(pool, cx, scrut, arms, exit).cx.next,
        keeps(cx, dropped_arms(pool, cx, scrut, arms, exit).cx, arms_binders(arms), arms_labels(arms), cx.next),
    decreases arms,
{
    if arms.len() > 0 {
        let d = dropped_arms(pool, cx, scrut, arms, exit);
        let rest = arms.drop_last();
        let before = dropped_arms(pool, cx, scrut, rest, exit);
        let pat = arms.last().0;
        let body = arms.last().1;
        let cx1 = before.cx.record_pat(pat, scrut);
        record_pat_facts(before.cx, pat, scrut);
        failure_stays(pool, cx1, body, exit);
        dropping_arms_keeps(pool, cx, scrut, rest, exit);
        dropping_keeps(pool, cx1, body, exit);
        assert forall|x: u32| !arms_binders(arms).contains(x) && x < cx.next implies #[trigger] same_on(cx, d.cx, x) by {
            assert(same_on(cx, before.cx, x));
            record_pat_keeps(before.cx, pat, scrut, x);
            assert(same_on(cx1, d.cx, x));
        }
        assert forall|l: u32| !arms_labels(arms).contains(l) implies (#[trigger] d.cx.conts.contains_key(l)
            <==> cx.conts.contains_key(l)) && d.cx.conts[l] == cx.conts[l] by {
            assert(d.cx.conts.contains_key(l) <==> cx1.conts.contains_key(l));
            assert(before.cx.conts.contains_key(l) <==> cx.conts.contains_key(l));
        }
    }
}

/// Releases before a body make no difference to the pass.
proof fn wrapping_is_ignored(
    pool: ResolvedPool,
    cx: Cx,
    by: Cx,
    dead: Seq<LocalId>,
    arm: Option<(LocalId, ReuseShape)>,
    body: Term,
    exit: ExitView,
)
    ensures
        dropped(pool, cx, wrapped(pool, by, dead, arm, body), exit) == dropped(pool, cx, body, exit),
    decreases dead.len(),
{
    if dead.len() > 0 {
        wrapping_is_ignored(pool, cx, by, dead.drop_first(), arm, body, exit);
    }
}

/// The same releases come of the same knowledge of what is released.
proof fn same_wrapping(
    pool: ResolvedPool,
    a: Cx,
    b: Cx,
    dead: Seq<LocalId>,
    arm: Option<(LocalId, ReuseShape)>,
    body: Term,
)
    requires
        forall|i: int| 0 <= i < dead.len() ==> same_on(a, b, (#[trigger] dead[i]).0),
    ensures
        wrapped(pool, a, dead, arm, body) == wrapped(pool, b, dead, arm, body),
    decreases dead.len(),
{
    if dead.len() > 0 {
        let rest = dead.drop_first();
        assert forall|i: int| 0 <= i < rest.len() implies same_on(a, b, (#[trigger] rest[i]).0) by {
            assert(rest[i] == dead[i + 1]);
        }
        same_wrapping(pool, a, b, rest, arm, body);
        assert(same_on(a, b, dead[0].0));
        assert(dead[0] == LocalId(dead[0].0));
    }
}

/// Filters that judge alike keep alike.
proof fn same_filter(q: Seq<LocalId>, f: spec_fn(LocalId) -> bool, g: spec_fn(LocalId) -> bool)
    requires
        forall|i: int| 0 <= i < q.len() ==> f(#[trigger] q[i]) == g(q[i]),
    ensures
        q.filter(f) == q.filter(g),
    decreases q.len(),
{
    reveal(Seq::filter);
    if q.len() > 0 {
        let p = q.drop_last();
        assert forall|i: int| 0 <= i < p.len() implies f(#[trigger] p[i]) == g(p[i]) by {
            assert(p[i] == q[i]);
        }
        same_filter(p, f, g);
        assert(f(q[q.len() - 1]) == g(q[q.len() - 1]));
    }
}

/// Locals that hold no cell are not released.
proof fn only_cells_are_released(pool: ResolvedPool, cx: Cx, dead: Seq<LocalId>, body: Term)
    ensures
        wrapped(pool, cx, dead.filter(|x: LocalId| cx.heap(pool, x)), None, body) == wrapped(
            pool,
            cx,
            dead,
            None,
            body,
        ),
    decreases dead.len(),
{
    let f = |x: LocalId| cx.heap(pool, x);
    reveal(Seq::filter);
    if dead.len() > 0 {
        let rest = dead.drop_first();
        let first = seq![dead[0]];
        only_cells_are_released(pool, cx, rest, body);
        assert(dead =~= first + rest);
        Seq::filter_distributes_over_add(first, rest, f);
        assert(first.drop_last() =~= Seq::empty());
        assert(first.drop_last().filter(f) =~= Seq::empty());
        if f(dead[0]) {
            assert(first.filter(f) =~= first);
            assert(dead.filter(f).drop_first() =~= rest.filter(f));
        } else {
            assert(first.filter(f) =~= Seq::empty());
            assert(dead.filter(f) =~= rest.filter(f));
        }
    } else {
        assert(dead.filter(f) =~= dead);
    }
}

/// Both know the same of the locals and the continuations in scope.
pub open spec fn alike(a: Cx, b: Cx, env: Env, scope: Set<u32>) -> bool {
    &&& forall|x: u32| #[trigger] env.contains_key(x) ==> same_on(a, b, x)
    &&& forall|l: u32| #[trigger]
        scope.contains(l) ==> b.conts.contains_key(l) && b.conts[l] == a.conts[l]
}

/// Of the locals `bs`, `a` knows no shape, and `b` none but what `after` knows.
pub open spec fn untouched(a: Cx, b: Cx, after: Cx, bs: Set<u32>) -> bool {
    forall|x: u32| #[trigger]
        bs.contains(x) ==> a.shape_of(LocalId(x)) is None && (b.shape_of(LocalId(x)) is None || b.shape_of(LocalId(x))
            == after.shape_of(LocalId(x)))
}

/// Run from `cx2` on what it made from `cx`, the pass makes the same again.
pub open spec fn remade(pool: ResolvedPool, cx: Cx, cx2: Cx, e: Term, exit: ExitView) -> bool {
    let d = dropped(pool, cx, e, exit);
    let r = dropped(pool, cx2, d.term, exit);
    &&& r.term == d.term
    &&& r.live == d.live
    &&& r.cx.ok
    &&& keeps(cx2, r.cx, binders(e), labels(e), cx.next)
}

/// A `Tail` that was handed over is handed over again.
proof fn tail_is_remade(
    pool: ResolvedPool,
    cx: Cx,
    cx2: Cx,
    a: AtomView,
    env: Env,
    scope: Set<u32>,
    exit: ExitView,
)
    requires
        ready(pool, cx, Term::Tail(a), env, scope, exit),
        alike(cx, cx2, env, scope),
        cx2.ok,
    ensures
        remade(pool, cx, cx2, Term::Tail(a), exit),
{
    let e = Term::Tail(a);
    let d = dropped(pool, cx, e, exit);
    match exit {
        ExitView::Return => {},
        ExitView::Join { ty, after } => {
            let reads = a.reads();
            let gone = ascending(reads.difference(after));
            ascending_facts(reads.difference(after));
            let f = |x: LocalId| cx.heap(pool, x);
            let g = |x: LocalId| cx2.heap(pool, x);
            assert forall|i: int| 0 <= i < gone.len() implies f(#[trigger] gone[i]) == g(gone[i]) && env.contains_key(
                gone[i].0,
            ) by {
                assert(env.dom().contains(gone[i].0));
                assert(env.contains_key(gone[i].0));
                assert(same_on(cx, cx2, gone[i].0));
            }
            same_filter(gone, f, g);
            assert(dying(pool, cx, a, after) == gone.filter(f));
            assert(dying(pool, cx2, a, after) == gone.filter(g));
            let dead = gone.filter(f);
            if dead.len() > 0 {
                match a {
                    AtomView::Local(x) => {
                        assert(AtomView::Move(x).reads() =~= reads);
                    },
                    AtomView::Move(x) => {},
                    _ => {
                        minted_tail_is_remade(pool, cx, cx2, a, env, scope, ty, after);
                    },
                }
            }
        },
    }
}

/// So is a value that was bound first.
proof fn minted_tail_is_remade(
    pool: ResolvedPool,
    cx: Cx,
    cx2: Cx,
    a: AtomView,
    env: Env,
    scope: Set<u32>,
    ty: RTy,
    after: Set<u32>,
)
    requires
        ready(pool, cx, Term::Tail(a), env, scope, ExitView::Join { ty, after }),
        alike(cx, cx2, env, scope),
        cx2.ok,
        !(a is Local),
        dying(pool, cx, a, after).len() > 0,
    ensures
        remade(pool, cx, cx2, Term::Tail(a), ExitView::Join { ty, after }),
{
    let exit = ExitView::Join { ty, after };
    let d = dropped(pool, cx, Term::Tail(a), exit);
    let reads = a.reads();
    let gone = ascending(reads.difference(after));
    ascending_facts(reads.difference(after));
    let bind = cx.fresh(ty);
    let t = bind.id.0;
    let minted = cx.mint(ty, a.shape());
    let again = cx2.record(bind, a.shape());
    let value = if minted.heap(pool, bind.id) {
        AtomView::Move(bind.id)
    } else {
        AtomView::Local(bind.id)
    };
    assert(t == cx.next);
    assert(!env.contains_key(t));
    assert(!env.dom().contains(t));
    assert(!reads.contains(t) && !after.contains(t));
    let dead = gone.filter(|x: LocalId| cx.heap(pool, x));
    assert(dying(pool, cx, a, after) == dead);
    assert(d.term == (Term::Let {
        bind,
        rhs: a,
        body: Box::new(wrapped(pool, minted, dead, None, Term::Tail(value))),
    }));
    // The value of the bind alone.
    let inner = dropped(pool, again, Term::Tail(value), exit);
    assert(value.reads() =~= set![t]) by {
        assert(value.operands() == seq![bind.id]);
        assert forall|n: u32| value.reads().contains(n) <==> n == t by {
            if n == t {
                assert(seq![bind.id][0] == LocalId(n));
            }
        }
    }
    let own = ascending(value.reads().difference(after));
    ascending_facts(value.reads().difference(after));
    assert(value.reads().difference(after).contains(t));
    assert(own.contains(bind.id)) by {
        assert(numbers(own).contains(t));
    }
    let h = |x: LocalId| again.heap(pool, x);
    assert(dying(pool, again, value, after) == own.filter(h));
    filter_members(own, h, bind.id);
    if minted.heap(pool, bind.id) {
        assert(own.filter(h).contains(bind.id));
        assert(own.filter(h).len() > 0);
    } else {
        assert forall|i: int| 0 <= i < own.len() implies !h(#[trigger] own[i]) by {
            assert(value.reads().contains(own[i].0));
            assert(own[i] == bind.id);
        }
        own.lemma_all_neg_filter_empty(h);
    }
    assert(inner.term == Term::Tail(value));
    assert(inner.live =~= set![t].union(after));
    wrapping_is_ignored(pool, again, minted, dead, None, Term::Tail(value), exit);
    // What is released between the two.
    assert(reads.difference(inner.live) =~= reads.difference(after));
    assert forall|i: int| 0 <= i < gone.len() implies same_on(again, minted, (#[trigger] gone[i]).0) && same_on(
        cx,
        minted,
        gone[i].0,
    ) by {
        assert(reads.contains(gone[i].0));
        assert(env.dom().contains(gone[i].0));
        assert(env.contains_key(gone[i].0));
        assert(same_on(cx, cx2, gone[i].0));
        assert(gone[i].0 != t);
    }
    same_wrapping(pool, again, minted, gone, None, inner.term);
    let f = |x: LocalId| cx.heap(pool, x);
    let m = |x: LocalId| minted.heap(pool, x);
    assert forall|i: int| 0 <= i < gone.len() implies f(#[trigger] gone[i]) == m(gone[i]) by {
        assert(same_on(cx, minted, gone[i].0));
    }
    same_filter(gone, f, m);
    only_cells_are_released(pool, minted, gone, inner.term);
    assert(gone + Seq::<LocalId>::empty() =~= gone);
    let r = dropped(pool, cx2, d.term, exit);
    assert(r == rebuilt_let(pool, bind, a, inner));
    assert(r.live =~= d.live);
    assert forall|x: u32| x < cx.next implies #[trigger] same_on(cx2, r.cx, x) by {
        assert(x != t);
    }
}

/// What the pass is given of the body of a `let`.
proof fn let_body_is_ready(pool: ResolvedPool, cx: Cx, e: Term, env: Env, scope: Set<u32>, exit: ExitView)
    requires
        e is Let,
        ready(pool, cx, e, env, scope, exit),
    ensures
        ready(
            pool,
            cx.record(e->Let_bind, e->rhs.shape()),
            *e->Let_body,
            with_bind(env, e->Let_bind),
            scope,
            exit,
        ),
{
    let bind = e->Let_bind;
    let body = *e->Let_body;
    let cx1 = cx.record(bind, e->rhs.shape());
    let env1 = with_bind(env, bind);
    assert(binders(e).contains(bind.id.0));
    assert forall|n: u32| binders(body).contains(n) implies !env1.dom().contains(n) && n < cx1.next by {
        assert(binders(e).contains(n));
    }
    assert(binders(body).disjoint(env1.dom()));
    surroundings_in_more(pool, env, env1, cx, cx1, scope, exit);
}

/// What the pass is given of a join and of what comes after it.
proof fn join_parts_are_ready(pool: ResolvedPool, cx: Cx, e: Term, env: Env, scope: Set<u32>, exit: ExitView)
    requires
        e is LetJoin,
        ready(pool, cx, e, env, scope, exit),
    ensures
        ({
            let bind = e->LetJoin_bind;
            let cx1 = cx.record(bind, None);
            let b = dropped(pool, cx1, *e->LetJoin_body, exit);
            &&& ready(pool, cx1, *e->LetJoin_body, with_bind(env, bind), scope, exit)
            &&& ready(pool, b.cx, *e->join, env, scope, join_exit(bind, b))
        }),
{
    let bind = e->LetJoin_bind;
    let join = *e->join;
    let body = *e->LetJoin_body;
    let cx1 = cx.record(bind, None);
    let env1 = with_bind(env, bind);
    assert(binders(e).contains(bind.id.0));
    assert forall|n: u32| binders(body).contains(n) implies !env1.dom().contains(n) && n < cx1.next by {
        assert(binders(e).contains(n));
    }
    assert(binders(body).disjoint(env1.dom()));
    surroundings_in_more(pool, env, env1, cx, cx1, scope, exit);
    assert forall|l: u32| labels(body).contains(l) || labels(join).contains(l) implies !scope.contains(l) by {
        assert(labels(e).contains(l));
    }
    assert(ready(pool, cx1, body, env1, scope, exit));
    drop_pass_is_balanced(pool, cx1, body, env1, scope, exit);
    let b = dropped(pool, cx1, body, exit);
    dropping_keeps(pool, cx1, body, exit);
    assert forall|n: u32| b.live.remove(bind.id.0).contains(n) implies env.dom().contains(n) by {
        assert(env1.dom().contains(n));
    }
    assert forall|n: u32| binders(join).contains(n) implies !env.dom().contains(n) && n < b.cx.next by {
        assert(binders(e).contains(n));
    }
    assert(binders(join).disjoint(env.dom()));
    assert forall|x: u32| #[trigger] env.contains_key(x) implies b.cx.ty.contains_key(x) && b.cx.ty[x] == env[x] && x
        < b.cx.next by {
        assert(env.dom().contains(x));
        assert(x != bind.id.0);
        assert(!binders(body).contains(x)) by {
            if binders(body).contains(x) {
                assert(binders(e).contains(x));
            }
        }
        assert(same_on(cx1, b.cx, x));
    }
    assert forall|l: u32| scope.contains(l) implies b.cx.conts.contains_key(l) && #[trigger] b.cx.conts[l]
        == cx.conts[l] by {
        assert(!labels(body).contains(l));
        assert(b.cx.conts.contains_key(l) <==> cx1.conts.contains_key(l));
    }
    surroundings_in_more(pool, env, env, cx, b.cx, scope, exit);
}

/// What the pass is given of a continuation and of the body that jumps to it.
proof fn cont_parts_are_ready(pool: ResolvedPool, cx: Cx, e: Term, env: Env, scope: Set<u32>, exit: ExitView)
    requires
        e is LetCont,
        ready(pool, cx, e, env, scope, exit),
    ensures
        ({
            let c = dropped(pool, cx, *e->cont, exit);
            &&& ready(pool, cx, *e->cont, env, scope, exit)
            &&& ready(pool, with_cont(c.cx, e->id, c.live), *e->LetCont_body, env, scope.insert(e->id.0), exit)
        }),
{
    let id = e->id;
    let cont = *e->cont;
    let body = *e->LetCont_body;
    assert forall|n: u32| binders(cont).contains(n) || binders(body).contains(n) implies !env.dom().contains(n) && n
        < cx.next by {
        assert(binders(e).contains(n));
    }
    assert(binders(cont).disjoint(env.dom()));
    assert(binders(body).disjoint(env.dom()));
    assert forall|l: u32| labels(body).contains(l) || labels(cont).contains(l) implies !scope.contains(l) by {
        assert(labels(e).contains(l));
    }
    assert(ready(pool, cx, cont, env, scope, exit));
    drop_pass_is_balanced(pool, cx, cont, env, scope, exit);
    let c = dropped(pool, cx, cont, exit);
    let cx2 = with_cont(c.cx, id, c.live);
    let inner = scope.insert(id.0);
    assert forall|x: u32| #[trigger] env.contains_key(x) implies cx2.ty.contains_key(x) && cx2.ty[x] == env[x] && x
        < cx2.next by {
        assert(!binders(cont).contains(x));
        assert(c.cx.ty.contains_key(x) <==> cx.ty.contains_key(x));
    }
    assert forall|l: u32| #[trigger] inner.contains(l) implies cx2.conts.contains_key(l) && cx2.conts[l].subset_of(
        env.dom(),
    ) by {
        if l != id.0 {
            assert(scope.contains(l));
            assert(!labels(cont).contains(l));
            assert(c.cx.conts.contains_key(l) <==> cx.conts.contains_key(l));
        }
    }
    assert(ready(pool, cx2, body, env, inner, exit));
}

/// What the pass is given of two branches.
proof fn branches_are_ready(pool: ResolvedPool, cx: Cx, e: Term, env: Env, scope: Set<u32>, exit: ExitView)
    requires
        e is If,
        ready(pool, cx, e, env, scope, exit),
    ensures
        ready(pool, cx, *e->yes, env, scope, exit),
        ready(pool, dropped(pool, cx, *e->yes, exit).cx, *e->no, env, scope, exit),
{
    let yes = *e->yes;
    let no = *e->no;
    assert forall|n: u32| binders(yes).contains(n) || binders(no).contains(n) implies !env.dom().contains(n) && n
        < cx.next by {
        assert(binders(e).contains(n));
    }
    assert(binders(yes).disjoint(env.dom()));
    assert(binders(no).disjoint(env.dom()));
    assert forall|l: u32| labels(yes).contains(l) || labels(no).contains(l) implies !scope.contains(l) by {
        assert(labels(e).contains(l));
    }
    assert(ready(pool, cx, yes, env, scope, exit));
    drop_pass_is_balanced(pool, cx, yes, env, scope, exit);
    let t = dropped(pool, cx, yes, exit);
    assert forall|x: u32| #[trigger] env.contains_key(x) implies t.cx.ty.contains_key(x) && t.cx.ty[x] == env[x] && x
        < t.cx.next by {
        assert(!binders(yes).contains(x));
        assert(t.cx.ty.contains_key(x) <==> cx.ty.contains_key(x));
    }
    assert forall|l: u32| scope.contains(l) implies t.cx.conts.contains_key(l) && #[trigger] t.cx.conts[l]
        == cx.conts[l] by {
        assert(!labels(yes).contains(l));
        assert(t.cx.conts.contains_key(l) <==> cx.conts.contains_key(l));
    }
    surroundings_in_more(pool, env, env, cx, t.cx, scope, exit);
}

/// What was alike before is alike after, where neither run learns of it anew.
proof fn stays_alike(a: Cx, a2: Cx, b: Cx, b2: Cx, env: Env, scope: Set<u32>, bs: Set<u32>, ls: Set<u32>, top: int)
    requires
        alike(a, b, env, scope),
        keeps(a, a2, bs, ls, top),
        keeps(b, b2, bs, ls, top),
        bs.disjoint(env.dom()),
        ls.disjoint(scope),
        forall|x: u32| #[trigger] env.contains_key(x) ==> x < top,
    ensures
        alike(a2, b2, env, scope),
{
    assert forall|x: u32| #[trigger] env.contains_key(x) implies same_on(a2, b2, x) by {
        assert(env.dom().contains(x));
        assert(same_on(a, a2, x) && same_on(b, b2, x) && same_on(a, b, x));
    }
    assert forall|l: u32| #[trigger] scope.contains(l) implies b2.conts.contains_key(l) && b2.conts[l] == a2.conts[l] by {
        assert(a2.conts.contains_key(l) <==> a.conts.contains_key(l));
        assert(b2.conts.contains_key(l) <==> b.conts.contains_key(l));
    }
}

/// What neither of two runs learns of anew, the two together do not.
proof fn keeps_on(
    a: Cx,
    b: Cx,
    c: Cx,
    bs: Set<u32>,
    ls: Set<u32>,
    bs2: Set<u32>,
    ls2: Set<u32>,
    all: Set<u32>,
    names: Set<u32>,
    top: int,
    top2: int,
)
    requires
        keeps(a, b, bs, ls, top),
        keeps(b, c, bs2, ls2, top2),
        top <= top2,
        bs.subset_of(all),
        bs2.subset_of(all),
        ls.subset_of(names),
        ls2.subset_of(names),
    ensures
        keeps(a, c, all, names, top),
{
    assert forall|x: u32| !all.contains(x) && x < top implies #[trigger] same_on(a, c, x) by {
        assert(same_on(a, b, x) && same_on(b, c, x));
    }
    assert forall|l: u32| !names.contains(l) implies (#[trigger] c.conts.contains_key(l) <==> a.conts.contains_key(l))
        && c.conts[l] == a.conts[l] by {
        assert(b.conts.contains_key(l) <==> a.conts.contains_key(l));
    }
}

/// A local that comes into scope is alike in both runs, whatever the second knew of its shape.
proof fn bound_alike(cx: Cx, cx2: Cx, after: Cx, bind: CoreBind, s: Option<ReuseShape>)
    requires
        cx.shape_of(bind.id) is None,
        cx2.shape_of(bind.id) is None || cx2.shape_of(bind.id) == after.shape_of(bind.id),
        same_on(cx.record(bind, s), after, bind.id.0),
    ensures
        same_on(cx.record(bind, s), cx2.record(bind, s), bind.id.0),
{
    assert(bind.id == LocalId(bind.id.0));
}

/// Where two runs come to the body of a `let`, they are alike.
proof fn let_bodies_are_alike(
    pool: ResolvedPool,
    cx: Cx,
    cx2: Cx,
    bind: CoreBind,
    s: Option<ReuseShape>,
    body: Term,
    env: Env,
    scope: Set<u32>,
    exit: ExitView,
    after: Cx,
)
    requires
        ready(pool, cx.record(bind, s), body, with_bind(env, bind), scope, exit),
        alike(cx, cx2, env, scope),
        untouched(cx, cx2, after, binders(body).insert(bind.id.0)),
        forall|x: u32| x == bind.id.0 || #[trigger] binders(body).contains(x) ==> same_on(
            dropped(pool, cx.record(bind, s), body, exit).cx,
            after,
            x,
        ),
        !env.contains_key(bind.id.0),
    ensures
        alike(cx.record(bind, s), cx2.record(bind, s), with_bind(env, bind), scope),
        untouched(
            cx.record(bind, s),
            cx2.record(bind, s),
            dropped(pool, cx.record(bind, s), body, exit).cx,
            binders(body),
        ),
        same_on(cx.record(bind, s), dropped(pool, cx.record(bind, s), body, exit).cx, bind.id.0),
{
    let cx1 = cx.record(bind, s);
    let cx3 = cx2.record(bind, s);
    let env1 = with_bind(env, bind);
    let b = dropped(pool, cx1, body, exit);
    let n = bind.id.0;
    drop_pass_is_balanced(pool, cx1, body, env1, scope, exit);
    dropping_keeps(pool, cx1, body, exit);
    assert(env1.contains_key(n));
    assert(env1.dom().contains(n));
    assert(!binders(body).contains(n));
    assert(same_on(cx1, b.cx, n));
    assert(same_on(b.cx, after, n));
    assert(binders(body).insert(n).contains(n));
    assert(bind.id == LocalId(n));
    bound_alike(cx, cx2, after, bind, s);
    assert forall|x: u32| #[trigger] env1.contains_key(x) implies same_on(cx1, cx3, x) by {
        if x != n {
            assert(env.contains_key(x));
            assert(same_on(cx, cx2, x));
        }
    }
    assert forall|x: u32| #[trigger] binders(body).contains(x) implies cx1.shape_of(LocalId(x)) is None && (cx3.shape_of(
        LocalId(x),
    ) is None || cx3.shape_of(LocalId(x)) == b.cx.shape_of(LocalId(x))) by {
        assert(binders(body).insert(n).contains(x));
        assert(x != n);
        assert(same_on(b.cx, after, x));
    }
}

/// A `let` is made the same again.
proof fn let_is_remade(
    pool: ResolvedPool,
    cx: Cx,
    cx2: Cx,
    e: Term,
    env: Env,
    scope: Set<u32>,
    exit: ExitView,
)
    requires
        e is Let,
        ready(pool, cx, e, env, scope, exit),
        alike(cx.record(e->Let_bind, e->rhs.shape()), cx2.record(e->Let_bind, e->rhs.shape()), with_bind(
            env,
            e->Let_bind,
        ), scope),
        remade(
            pool,
            cx.record(e->Let_bind, e->rhs.shape()),
            cx2.record(e->Let_bind, e->rhs.shape()),
            *e->Let_body,
            exit,
        ),
    ensures
        remade(pool, cx, cx2, e, exit),
{
    let bind = e->Let_bind;
    let rhs = e->rhs;
    let body = *e->Let_body;
    let cx1 = cx.record(bind, rhs.shape());
    let cx3 = cx2.record(bind, rhs.shape());
    let env1 = with_bind(env, bind);
    let_body_is_ready(pool, cx, e, env, scope, exit);
    drop_pass_is_balanced(pool, cx1, body, env1, scope, exit);
    dropping_keeps(pool, cx1, body, exit);
    let b = dropped(pool, cx1, body, exit);
    let d = dropped(pool, cx, e, exit);
    let r = dropped(pool, cx3, b.term, exit);
    stays_alike(cx1, b.cx, cx3, r.cx, env1, scope, binders(body), labels(body), cx1.next);
    let gone = rhs.reads().difference(b.live);
    let tail = if !b.live.contains(bind.id.0) {
        seq![bind.id]
    } else {
        Seq::<LocalId>::empty()
    };
    let dead = ascending(gone) + tail;
    ascending_facts(gone);
    assert forall|i: int| 0 <= i < dead.len() implies same_on(b.cx, r.cx, (#[trigger] dead[i]).0) by {
        if i < ascending(gone).len() {
            assert(dead[i] == ascending(gone)[i]);
            assert(gone.contains(dead[i].0));
            assert(env.dom().contains(dead[i].0));
        }
        assert(env1.contains_key(dead[i].0));
    }
    same_wrapping(pool, b.cx, r.cx, dead, None, b.term);
    wrapping_is_ignored(pool, cx3, b.cx, dead, None, b.term, exit);
    assert(d == rebuilt_let(pool, bind, rhs, b));
    assert(d.term == (Term::Let { bind, rhs, body: Box::new(wrapped(pool, b.cx, dead, None, b.term)) }));
    let again = dropped(pool, cx2, d.term, exit);
    assert(again == rebuilt_let(pool, bind, rhs, r));
    assert(again.term == d.term);
    assert(again.live == d.live);
    assert forall|x: u32| !binders(e).contains(x) && x < cx.next implies #[trigger] same_on(cx2, r.cx, x) by {
        assert(same_on(cx3, r.cx, x));
    }
    assert(keeps(cx2, r.cx, binders(e), labels(e), cx.next));
}

/// What is alike in a scope is alike in a smaller one.
proof fn alike_in_less(a: Cx, b: Cx, env: Env, bind: CoreBind, scope: Set<u32>)
    requires
        alike(a, b, with_bind(env, bind), scope),
    ensures
        alike(a, b, env, scope),
{
    assert forall|x: u32| #[trigger] env.contains_key(x) implies same_on(a, b, x) by {
        assert(with_bind(env, bind).contains_key(x));
    }
}

/// What one run has not touched is untouched for the next.
proof fn still_untouched(
    a: Cx,
    a2: Cx,
    b: Cx,
    b2: Cx,
    after: Cx,
    mine: Set<u32>,
    all: Set<u32>,
    bs: Set<u32>,
    ls: Set<u32>,
    top: int,
)
    requires
        untouched(a, b, after, all),
        mine.subset_of(all),
        mine.disjoint(bs),
        forall|x: u32| #[trigger] mine.contains(x) ==> x < top,
        keeps(a, a2, bs, ls, top),
        keeps(b, b2, bs, ls, top),
    ensures
        untouched(a2, b2, after, mine),
{
    assert forall|x: u32| #[trigger] mine.contains(x) implies a2.shape_of(LocalId(x)) is None && (b2.shape_of(LocalId(x)) is None
        || b2.shape_of(LocalId(x)) == after.shape_of(LocalId(x))) by {
        assert(all.contains(x));
        assert(same_on(a, a2, x) && same_on(b, b2, x));
    }
}

/// What one run knows of its own, the next leaves as it is.
proof fn untouched_before(a: Cx, b: Cx, mid: Cx, after: Cx, mine: Set<u32>, all: Set<u32>, bs: Set<u32>, ls: Set<u32>, top: int)
    requires
        untouched(a, b, after, all),
        mine.subset_of(all),
        mine.disjoint(bs),
        forall|x: u32| #[trigger] mine.contains(x) ==> x < top,
        keeps(mid, after, bs, ls, top),
    ensures
        untouched(a, b, mid, mine),
{
    assert forall|x: u32| #[trigger] mine.contains(x) implies a.shape_of(LocalId(x)) is None && (b.shape_of(LocalId(x)) is None
        || b.shape_of(LocalId(x)) == mid.shape_of(LocalId(x))) by {
        assert(all.contains(x));
        assert(same_on(mid, after, x));
    }
}

/// Where two runs come to the body after a join, they are alike.
proof fn join_bodies_are_alike(
    pool: ResolvedPool,
    cx: Cx,
    cx2: Cx,
    e: Term,
    env: Env,
    scope: Set<u32>,
    exit: ExitView,
)
    requires
        e is LetJoin,
        ready(pool, cx, e, env, scope, exit),
        alike(cx, cx2, env, scope),
        untouched(cx, cx2, dropped(pool, cx, e, exit).cx, binders(e)),
    ensures
        ({
            let bind = e->LetJoin_bind;
            let body = *e->LetJoin_body;
            let cx1 = cx.record(bind, None);
            let b = dropped(pool, cx1, body, exit);
            &&& alike(cx1, cx2.record(bind, None), with_bind(env, bind), scope)
            &&& untouched(cx1, cx2.record(bind, None), b.cx, binders(body))
            &&& keeps(cx1, b.cx, binders(body), labels(body), cx.next)
            &&& keeps(b.cx, dropped(pool, cx, e, exit).cx, binders(*e->join), labels(*e->join), b.cx.next)
            &&& cx.next <= b.cx.next
        }),
{
    let bind = e->LetJoin_bind;
    let join = *e->join;
    let body = *e->LetJoin_body;
    let cx1 = cx.record(bind, None);
    join_parts_are_ready(pool, cx, e, env, scope, exit);
    let b = dropped(pool, cx1, body, exit);
    let out = join_exit(bind, b);
    drop_pass_is_balanced(pool, cx1, body, with_bind(env, bind), scope, exit);
    drop_pass_is_balanced(pool, b.cx, join, env, scope, out);
    dropping_keeps(pool, cx1, body, exit);
    dropping_keeps(pool, b.cx, join, out);
    let j = dropped(pool, b.cx, join, out);
    assert(dropped(pool, cx, e, exit).cx == j.cx);
    assert forall|x: u32| x == bind.id.0 || #[trigger] binders(body).contains(x) implies same_on(b.cx, j.cx, x) by {
        assert(binders(e).contains(x));
        assert(!binders(join).contains(x));
        assert(x < cx.next);
    }
    assert forall|x: u32| #[trigger] binders(body).insert(bind.id.0).contains(x) implies cx.shape_of(LocalId(x)) is None && (
    cx2.shape_of(LocalId(x)) is None || cx2.shape_of(LocalId(x)) == j.cx.shape_of(LocalId(x))) by {
        assert(binders(e).contains(x));
    }
    let_bodies_are_alike(pool, cx, cx2, bind, None, body, env, scope, exit, j.cx);
}

/// Where two runs come from that body to the join, they are alike.
proof fn joins_are_alike(pool: ResolvedPool, cx: Cx, cx2: Cx, e: Term, env: Env, scope: Set<u32>, exit: ExitView)
    requires
        e is LetJoin,
        ready(pool, cx, e, env, scope, exit),
        alike(cx, cx2, env, scope),
        untouched(cx, cx2, dropped(pool, cx, e, exit).cx, binders(e)),
        remade(pool, cx.record(e->LetJoin_bind, None), cx2.record(e->LetJoin_bind, None), *e->LetJoin_body, exit),
    ensures
        ({
            let bind = e->LetJoin_bind;
            let body = *e->LetJoin_body;
            let b = dropped(pool, cx.record(bind, None), body, exit);
            let r = dropped(pool, cx2.record(bind, None), b.term, exit);
            &&& alike(b.cx, r.cx, with_bind(env, bind), scope)
            &&& untouched(b.cx, r.cx, dropped(pool, cx, e, exit).cx, binders(*e->join))
        }),
{
    let bind = e->LetJoin_bind;
    let join = *e->join;
    let body = *e->LetJoin_body;
    let cx1 = cx.record(bind, None);
    let cx3 = cx2.record(bind, None);
    let env1 = with_bind(env, bind);
    let b = dropped(pool, cx1, body, exit);
    let r = dropped(pool, cx3, b.term, exit);
    let after = dropped(pool, cx, e, exit).cx;
    join_bodies_are_alike(pool, cx, cx2, e, env, scope, exit);
    join_parts_are_ready(pool, cx, e, env, scope, exit);
    stays_alike(cx1, b.cx, cx3, r.cx, env1, scope, binders(body), labels(body), cx.next);
    assert forall|x: u32| #[trigger] binders(join).contains(x) implies b.cx.shape_of(LocalId(x)) is None && (r.cx.shape_of(
        LocalId(x),
    ) is None || r.cx.shape_of(LocalId(x)) == after.shape_of(LocalId(x))) by {
        assert(binders(e).contains(x));
        assert(!binders(body).contains(x));
        assert(x != bind.id.0);
        assert(same_on(cx1, b.cx, x) && same_on(cx3, r.cx, x));
    }
}

/// A join is made the same again.
proof fn join_is_remade(pool: ResolvedPool, cx: Cx, cx2: Cx, e: Term, env: Env, scope: Set<u32>, exit: ExitView)
    requires
        e is LetJoin,
        ready(pool, cx, e, env, scope, exit),
        alike(cx, cx2, env, scope),
        untouched(cx, cx2, dropped(pool, cx, e, exit).cx, binders(e)),
        ({
            let bind = e->LetJoin_bind;
            let body = *e->LetJoin_body;
            let b = dropped(pool, cx.record(bind, None), body, exit);
            let r = dropped(pool, cx2.record(bind, None), b.term, exit);
            &&& remade(pool, cx.record(bind, None), cx2.record(bind, None), body, exit)
            &&& remade(pool, b.cx, r.cx, *e->join, join_exit(bind, b))
        }),
    ensures
        remade(pool, cx, cx2, e, exit),
{
    let bind = e->LetJoin_bind;
    let join = *e->join;
    let body = *e->LetJoin_body;
    let cx1 = cx.record(bind, None);
    let cx3 = cx2.record(bind, None);
    let b = dropped(pool, cx1, body, exit);
    let out = join_exit(bind, b);
    let j = dropped(pool, b.cx, join, out);
    let d = dropped(pool, cx, e, exit);
    let r = dropped(pool, cx3, b.term, exit);
    let q = dropped(pool, r.cx, j.term, out);
    join_bodies_are_alike(pool, cx, cx2, e, env, scope, exit);
    joins_are_alike(pool, cx, cx2, e, env, scope, exit);
    assert(join_exit(bind, r) == out);
    let dead = seq![bind.id];
    assert(with_bind(env, bind).contains_key(bind.id.0));
    assert(binders(e).contains(bind.id.0));
    assert(same_on(b.cx, r.cx, bind.id.0));
    assert(same_on(b.cx, j.cx, bind.id.0) && same_on(r.cx, q.cx, bind.id.0));
    assert forall|i: int| 0 <= i < dead.len() implies same_on(j.cx, q.cx, (#[trigger] dead[i]).0) by {
        assert(dead[i] == bind.id);
    }
    same_wrapping(pool, j.cx, q.cx, dead, None, b.term);
    wrapping_is_ignored(pool, cx3, j.cx, dead, None, b.term, exit);
    let body_term = if b.live.contains(bind.id.0) {
        b.term
    } else {
        wrapped(pool, j.cx, dead, None, b.term)
    };
    assert(d.term == (Term::LetJoin { bind, join: Box::new(j.term), body: Box::new(body_term) }));
    let again = dropped(pool, cx2, d.term, exit);
    assert(dropped(pool, cx3, body_term, exit) == r);
    assert(again == rebuilt_join(pool, bind, q, r));
    assert(again.term == d.term);
    assert forall|x: u32| !binders(e).contains(x) && x < cx.next implies #[trigger] same_on(cx2, again.cx, x) by {
        assert(same_on(cx3, r.cx, x));
        assert(same_on(r.cx, q.cx, x));
    }
    assert forall|l: u32| !labels(e).contains(l) implies (#[trigger] again.cx.conts.contains_key(l)
        <==> cx2.conts.contains_key(l)) && again.cx.conts[l] == cx2.conts[l] by {
        assert(r.cx.conts.contains_key(l) <==> cx3.conts.contains_key(l));
        assert(q.cx.conts.contains_key(l) <==> r.cx.conts.contains_key(l));
    }
    assert(keeps(cx2, again.cx, binders(e), labels(e), cx.next));
}

/// Where two runs come from a continuation to the body that jumps to it, they are alike.
proof fn conts_are_alike(pool: ResolvedPool, cx: Cx, cx2: Cx, e: Term, env: Env, scope: Set<u32>, exit: ExitView)
    requires
        e is LetCont,
        ready(pool, cx, e, env, scope, exit),
        alike(cx, cx2, env, scope),
        untouched(cx, cx2, dropped(pool, cx, e, exit).cx, binders(e)),
    ensures
        ({
            let cont = *e->cont;
            let body = *e->LetCont_body;
            let c = dropped(pool, cx, cont, exit);
            let r = dropped(pool, cx2, c.term, exit);
            let cx1 = with_cont(c.cx, e->id, c.live);
            let cx3 = with_cont(r.cx, e->id, r.live);
            &&& cx.next <= cx1.next
            &&& untouched(cx, cx2, c.cx, binders(cont))
            &&& remade(pool, cx, cx2, cont, exit) ==> alike(cx1, cx3, env, scope.insert(e->id.0)) && untouched(
                cx1,
                cx3,
                dropped(pool, cx, e, exit).cx,
                binders(body),
            )
        }),
{
    let id = e->id;
    let cont = *e->cont;
    let body = *e->LetCont_body;
    let inner = scope.insert(id.0);
    let c = dropped(pool, cx, cont, exit);
    let r = dropped(pool, cx2, c.term, exit);
    let cx1 = with_cont(c.cx, id, c.live);
    let cx3 = with_cont(r.cx, id, r.live);
    let after = dropped(pool, cx, e, exit).cx;
    cont_parts_are_ready(pool, cx, e, env, scope, exit);
    drop_pass_is_balanced(pool, cx, cont, env, scope, exit);
    drop_pass_is_balanced(pool, cx1, body, env, inner, exit);
    dropping_keeps(pool, cx, cont, exit);
    dropping_keeps(pool, cx1, body, exit);
    assert(after == dropped(pool, cx1, body, exit).cx);
    assert forall|x: u32| binders(cont).contains(x) || binders(body).contains(x) implies binders(e).contains(x) && x
        < cx.next by {
        assert(binders(e).contains(x));
    }
    assert forall|x: u32| #[trigger] binders(cont).contains(x) implies cx.shape_of(LocalId(x)) is None && (cx2.shape_of(
        LocalId(x),
    ) is None || cx2.shape_of(LocalId(x)) == c.cx.shape_of(LocalId(x))) by {
        assert(binders(e).contains(x));
        assert(same_on(cx1, after, x));
    }
    if remade(pool, cx, cx2, cont, exit) {
        stays_alike(cx, c.cx, cx2, r.cx, env, scope, binders(cont), labels(cont), cx.next);
        assert forall|x: u32| #[trigger] env.contains_key(x) implies same_on(cx1, cx3, x) by {
            assert(same_on(c.cx, r.cx, x));
        }
        assert forall|l: u32| #[trigger] inner.contains(l) implies cx3.conts.contains_key(l) && cx3.conts[l] == cx1.conts[l] by {
            if l != id.0 {
                assert(scope.contains(l));
            }
        }
        assert forall|x: u32| #[trigger] binders(body).contains(x) implies cx1.shape_of(LocalId(x)) is None && (cx3.shape_of(
            LocalId(x),
        ) is None || cx3.shape_of(LocalId(x)) == after.shape_of(LocalId(x))) by {
            assert(binders(e).contains(x));
            assert(!binders(cont).contains(x));
            assert(same_on(cx, c.cx, x) && same_on(cx2, r.cx, x));
        }
    }
}

/// A continuation and its body are made the same again.
proof fn cont_is_remade(pool: ResolvedPool, cx: Cx, cx2: Cx, e: Term, env: Env, scope: Set<u32>, exit: ExitView)
    requires
        e is LetCont,
        ready(pool, cx, e, env, scope, exit),
        ({
            let c = dropped(pool, cx, *e->cont, exit);
            let r = dropped(pool, cx2, c.term, exit);
            &&& cx.next <= c.cx.next
            &&& remade(pool, cx, cx2, *e->cont, exit)
            &&& remade(
                pool,
                with_cont(c.cx, e->id, c.live),
                with_cont(r.cx, e->id, r.live),
                *e->LetCont_body,
                exit,
            )
        }),
    ensures
        remade(pool, cx, cx2, e, exit),
{
    let id = e->id;
    let c = dropped(pool, cx, *e->cont, exit);
    let r = dropped(pool, cx2, c.term, exit);
    let cx1 = with_cont(c.cx, id, c.live);
    let cx3 = with_cont(r.cx, id, r.live);
    let b = dropped(pool, cx1, *e->LetCont_body, exit);
    let q = dropped(pool, cx3, b.term, exit);
    let d = dropped(pool, cx, e, exit);
    assert(d.term == (Term::LetCont { id, cont: Box::new(c.term), body: Box::new(b.term) }));
    let again = dropped(pool, cx2, d.term, exit);
    assert(again.cx == q.cx);
    assert forall|x: u32| !binders(e).contains(x) && x < cx.next implies #[trigger] same_on(cx2, again.cx, x) by {
        assert(same_on(cx2, r.cx, x));
        assert(same_on(cx3, q.cx, x));
    }
    assert forall|l: u32| !labels(e).contains(l) implies (#[trigger] again.cx.conts.contains_key(l)
        <==> cx2.conts.contains_key(l)) && again.cx.conts[l] == cx2.conts[l] by {
        assert(r.cx.conts.contains_key(l) <==> cx2.conts.contains_key(l));
        assert(q.cx.conts.contains_key(l) <==> cx3.conts.contains_key(l));
    }
}

/// Two branches are made the same again.
proof fn branches_are_remade(pool: ResolvedPool, cx: Cx, cx2: Cx, e: Term, env: Env, scope: Set<u32>, exit: ExitView)
    requires
        e is If,
        ready(pool, cx, e, env, scope, exit),
        alike(cx, cx2, env, scope),
        ({
            let t = dropped(pool, cx, *e->yes, exit);
            let r = dropped(pool, cx2, t.term, exit);
            &&& remade(pool, cx, cx2, *e->yes, exit)
            &&& remade(pool, t.cx, r.cx, *e->no, exit)
        }),
    ensures
        remade(pool, cx, cx2, e, exit),
{
    let cond = e->cond;
    let yes = *e->yes;
    let no = *e->no;
    branches_are_ready(pool, cx, e, env, scope, exit);
    let t = dropped(pool, cx, yes, exit);
    let f = dropped(pool, t.cx, no, exit);
    let d = dropped(pool, cx, e, exit);
    let r = dropped(pool, cx2, t.term, exit);
    let q = dropped(pool, r.cx, f.term, exit);
    drop_pass_is_balanced(pool, cx, yes, env, scope, exit);
    drop_pass_is_balanced(pool, t.cx, no, env, scope, exit);
    dropping_keeps(pool, cx, yes, exit);
    dropping_keeps(pool, t.cx, no, exit);
    stays_alike(cx, t.cx, cx2, r.cx, env, scope, binders(yes), labels(yes), cx.next);
    stays_alike(t.cx, f.cx, r.cx, q.cx, env, scope, binders(no), labels(no), t.cx.next);
    let one = ascending(f.live.difference(t.live));
    let other = ascending(t.live.difference(f.live));
    ascending_facts(f.live.difference(t.live));
    ascending_facts(t.live.difference(f.live));
    assert forall|i: int| 0 <= i < one.len() implies same_on(f.cx, q.cx, (#[trigger] one[i]).0) by {
        assert(env.dom().contains(one[i].0));
        assert(env.contains_key(one[i].0));
    }
    assert forall|i: int| 0 <= i < other.len() implies same_on(f.cx, q.cx, (#[trigger] other[i]).0) by {
        assert(env.dom().contains(other[i].0));
        assert(env.contains_key(other[i].0));
    }
    same_wrapping(pool, f.cx, q.cx, one, None, t.term);
    same_wrapping(pool, f.cx, q.cx, other, None, f.term);
    wrapping_is_ignored(pool, cx2, f.cx, one, None, t.term, exit);
    wrapping_is_ignored(pool, r.cx, f.cx, other, None, f.term, exit);
    let again = dropped(pool, cx2, d.term, exit);
    assert(again.cx == q.cx);
    assert(again.term == d.term);
    assert(again.live == d.live);
    keeps_on(
        cx2,
        r.cx,
        q.cx,
        binders(yes),
        labels(yes),
        binders(no),
        labels(no),
        binders(e),
        labels(e),
        cx.next,
        t.cx.next,
    );
}

/// `out` are arms whose bodies the pass takes for those of `arms`.
pub open spec fn covers(pool: ResolvedPool, exit: ExitView, out: Seq<(PatView, Term)>, arms: Seq<Arm>) -> bool {
    &&& out.len() == arms.len()
    &&& forall|i: int| 0 <= i < out.len() ==> (#[trigger] out[i]).0 == arms[i].pat
    &&& forall|i: int, cx: Cx|
        0 <= i < out.len() ==> #[trigger] dropped(pool, cx, out[i].1, exit) == dropped(pool, cx, arms[i].term, exit)
}

/// What the pass is given of the last of some arms.
proof fn last_arm_is_ready(
    pool: ResolvedPool,
    cx: Cx,
    scrut: LocalId,
    arms: Seq<(PatView, Term)>,
    env: Env,
    scope: Set<u32>,
    exit: ExitView,
)
    requires
        arms.len() > 0,
        arms_ready(pool, cx, arms, env, scope, exit),
    ensures
        arms_ready(pool, cx, arms.drop_last(), env, scope, exit),
        ({
            let before = dropped_arms(pool, cx, scrut, arms.drop_last(), exit);
            let pat = arms.last().0;
            &&& before.cx.ok
            &&& cx.next <= before.cx.next
            &&& keeps(cx, before.cx, arms_binders(arms.drop_last()), arms_labels(arms.drop_last()), cx.next)
            &&& ready(
                pool,
                before.cx.record_pat(pat, scrut),
                arms.last().1,
                with_binds(env, pat.binds()),
                scope,
                exit,
            )
        }),
{
    let rest = arms.drop_last();
    let pat = arms.last().0;
    let body = arms.last().1;
    let all = arms_binders(arms);
    let mine = bound_set(pat);
    assert forall|n: u32| #[trigger] arms_binders(rest).contains(n) implies n < cx.next && !env.dom().contains(n) by {
        assert(all.contains(n));
    }
    assert forall|l: u32| #[trigger] arms_labels(rest).contains(l) implies !scope.contains(l) by {
        assert(arms_labels(arms).contains(l));
    }
    assert(arms_ready(pool, cx, rest, env, scope, exit));
    arms_are_balanced(pool, cx, scrut, rest, env, scope, exit);
    let before = dropped_arms(pool, cx, scrut, rest, exit);
    dropping_arms_keeps(pool, cx, scrut, rest, exit);
    let cx1 = before.cx.record_pat(pat, scrut);
    let env1 = with_binds(env, pat.binds());
    record_pat_facts(before.cx, pat, scrut);
    with_binds_facts(env, pat.binds(), before.cx);
    assert forall|n: u32| #[trigger] env.contains_key(n) implies env1.contains_key(n) && env1[n] == env[n] && !all.contains(n) by {
        assert(env.dom().contains(n));
        assert(!mine.contains(n));
    }
    assert forall|x: u32| #[trigger] env1.contains_key(x) implies cx1.ty.contains_key(x) && cx1.ty[x] == env1[x] && x
        < cx1.next by {
        if mine.contains(x) {
            assert(all.contains(x));
            assert(before.cx.record_all(pat.binds()).ty.contains_key(x));
        } else {
            assert(env.contains_key(x));
            assert(same_on(cx, before.cx, x));
            assert(before.cx.record_all(pat.binds()).ty.contains_key(x));
        }
    }
    assert forall|n: u32| binders(body).contains(n) implies !env1.dom().contains(n) && n < cx1.next by {
        assert(all.contains(n));
        assert(!mine.contains(n));
        if env1.contains_key(n) {
            assert(env.contains_key(n));
        }
    }
    assert(binders(body).disjoint(env1.dom()));
    assert forall|l: u32| labels(body).contains(l) implies !scope.contains(l) by {
        assert(arms_labels(arms).contains(l));
    }
    assert forall|l: u32| scope.contains(l) implies cx1.conts.contains_key(l) && #[trigger] cx1.conts[l] == cx.conts[l] by {
        assert(before.cx.conts.contains_key(l) <==> cx.conts.contains_key(l));
    }
    surroundings_in_more(pool, env, env1, cx, cx1, scope, exit);
    assert(ready(pool, cx1, body, env1, scope, exit));
}

/// Where two runs come to the body of an arm, what its pattern binds is alike.
proof fn patterns_are_alike(cx: Cx, cx2: Cx, after: Cx, pat: PatView, scrut: LocalId, x: u32)
    requires
        bound_set(pat).contains(x),
        same_on(cx, cx2, scrut.0),
        cx.shape_of(LocalId(x)) is None,
        cx2.shape_of(LocalId(x)) is None || cx2.shape_of(LocalId(x)) == after.shape_of(LocalId(x)),
        same_on(cx.record_pat(pat, scrut), after, x),
    ensures
        same_on(cx.record_pat(pat, scrut), cx2.record_pat(pat, scrut), x),
{
    assert(scrut == LocalId(scrut.0));
    record_pat_facts(cx, pat, scrut);
    record_pat_facts(cx2, pat, scrut);
    record_all_keeps(cx, pat.binds());
    record_all_keeps(cx2, pat.binds());
    with_binds_facts(Map::empty(), pat.binds(), cx);
    with_binds_facts(Map::empty(), pat.binds(), cx2);
    assert(cx.record_all(pat.binds()).ty.contains_key(x));
    assert(cx2.record_all(pat.binds()).ty.contains_key(x));
    match pat {
        PatView::Bind(b) => {
            assert(b.id == LocalId(x));
            bound_alike(cx, cx2, after, b, cx.shape_of(scrut));
        },
        _ => {},
    }
}

/// Where two runs come to the last of some arms, they are alike.
proof fn last_arms_are_alike(
    pool: ResolvedPool,
    cx: Cx,
    cx2: Cx,
    before: Cx,
    before2: Cx,
    scrut: LocalId,
    arms: Seq<(PatView, Term)>,
    env: Env,
    scope: Set<u32>,
    exit: ExitView,
)
    requires
        arms.len() > 0,
        env.contains_key(scrut.0),
        arms_ready(pool, cx, arms, env, scope, exit),
        alike(cx, cx2, env, scope),
        before == dropped_arms(pool, cx, scrut, arms.drop_last(), exit).cx,
        untouched(cx, cx2, dropped_arms(pool, cx, scrut, arms, exit).cx, arms_binders(arms)),
        keeps(cx2, before2, arms_binders(arms.drop_last()), arms_labels(arms.drop_last()), cx.next),
    ensures
        ({
            let pat = arms.last().0;
            let body = arms.last().1;
            let d = dropped_arms(pool, cx, scrut, arms, exit);
            let cx1 = before.record_pat(pat, scrut);
            let cx3 = before2.record_pat(pat, scrut);
            &&& same_on(before, before2, scrut.0)
            &&& alike(cx1, cx3, with_binds(env, pat.binds()), scope)
            &&& untouched(cx1, cx3, d.cx, binders(body))
            &&& d.cx == dropped(pool, cx1, body, exit).cx
            &&& keeps(cx1, d.cx, binders(body), labels(body), cx1.next)
        }),
{
    let rest = arms.drop_last();
    let pat = arms.last().0;
    let body = arms.last().1;
    let d = dropped_arms(pool, cx, scrut, arms, exit);
    let all = arms_binders(arms);
    let cx1 = before.record_pat(pat, scrut);
    let cx3 = before2.record_pat(pat, scrut);
    let env1 = with_binds(env, pat.binds());
    last_arm_is_ready(pool, cx, scrut, arms, env, scope, exit);
    drop_pass_is_balanced(pool, cx1, body, env1, scope, exit);
    dropping_keeps(pool, cx1, body, exit);
    record_pat_facts(before, pat, scrut);
    record_pat_facts(before2, pat, scrut);
    with_binds_facts(env, pat.binds(), before);
    stays_alike(cx, before, cx2, before2, env, scope, arms_binders(rest), arms_labels(rest), cx.next);
    assert(same_on(before, before2, scrut.0));
    assert forall|x: u32| #[trigger] env1.contains_key(x) implies same_on(cx1, cx3, x) by {
        if bound_set(pat).contains(x) {
            assert(all.contains(x));
            assert(same_on(cx, before, x) && same_on(cx2, before2, x));
            assert(env1.dom().contains(x));
            assert(!binders(body).contains(x));
            assert(same_on(cx1, d.cx, x));
            patterns_are_alike(before, before2, d.cx, pat, scrut, x);
        } else {
            assert(env.contains_key(x));
            assert(same_on(before, before2, x));
            record_pat_keeps(before, pat, scrut, x);
            record_pat_keeps(before2, pat, scrut, x);
        }
    }
    assert forall|l: u32| #[trigger] scope.contains(l) implies cx3.conts.contains_key(l) && cx3.conts[l] == cx1.conts[l] by {
        assert(before2.conts.contains_key(l));
    }
    assert forall|x: u32| #[trigger] binders(body).contains(x) implies cx1.shape_of(LocalId(x)) is None && (cx3.shape_of(
        LocalId(x),
    ) is None || cx3.shape_of(LocalId(x)) == d.cx.shape_of(LocalId(x))) by {
        assert(all.contains(x));
        assert(!bound_set(pat).contains(x) && !arms_binders(rest).contains(x));
        assert(same_on(cx, before, x) && same_on(cx2, before2, x));
        record_pat_keeps(before, pat, scrut, x);
        record_pat_keeps(before2, pat, scrut, x);
    }
}

/// Run from `cx2` on arms that are taken for what it made from `cx`, the pass makes the same
/// again.
pub open spec fn arms_remade(
    pool: ResolvedPool,
    cx: Cx,
    cx2: Cx,
    scrut: LocalId,
    arms: Seq<(PatView, Term)>,
    out: Seq<(PatView, Term)>,
    exit: ExitView,
) -> bool {
    let d = dropped_arms(pool, cx, scrut, arms, exit);
    let r = dropped_arms(pool, cx2, scrut, out, exit);
    &&& r.arms == d.arms
    &&& r.live == d.live
    &&& r.cx.ok
    &&& keeps(cx2, r.cx, arms_binders(arms), arms_labels(arms), cx.next)
    &&& forall|i: int, x: u32|
        0 <= i < d.arms.len() && #[trigger] bound_set(d.arms[i].pat).contains(x) ==> same_on(d.cx, r.cx, x)
            && arms_binders(arms).contains(x)
}

/// An arm and those before it are made the same again.
proof fn last_arm_is_remade(
    pool: ResolvedPool,
    cx: Cx,
    cx2: Cx,
    scrut: LocalId,
    arms: Seq<(PatView, Term)>,
    out: Seq<(PatView, Term)>,
    env: Env,
    scope: Set<u32>,
    exit: ExitView,
)
    requires
        arms.len() > 0,
        env.contains_key(scrut.0),
        arms_ready(pool, cx, arms, env, scope, exit),
        alike(cx, cx2, env, scope),
        untouched(cx, cx2, dropped_arms(pool, cx, scrut, arms, exit).cx, arms_binders(arms)),
        covers(pool, exit, out, dropped_arms(pool, cx, scrut, arms, exit).arms),
        arms_remade(pool, cx, cx2, scrut, arms.drop_last(), out.drop_last(), exit),
        remade(
            pool,
            dropped_arms(pool, cx, scrut, arms.drop_last(), exit).cx.record_pat(arms.last().0, scrut),
            dropped_arms(pool, cx2, scrut, out.drop_last(), exit).cx.record_pat(arms.last().0, scrut),
            arms.last().1,
            exit,
        ),
    ensures
        arms_remade(pool, cx, cx2, scrut, arms, out, exit),
{
    let rest = arms.drop_last();
    let pat = arms.last().0;
    let body = arms.last().1;
    let d = dropped_arms(pool, cx, scrut, arms, exit);
    let r = dropped_arms(pool, cx2, scrut, out, exit);
    let before = dropped_arms(pool, cx, scrut, rest, exit);
    let before2 = dropped_arms(pool, cx2, scrut, out.drop_last(), exit);
    let cx1 = before.cx.record_pat(pat, scrut);
    let cx3 = before2.cx.record_pat(pat, scrut);
    let env1 = with_binds(env, pat.binds());
    let all = arms_binders(arms);
    last_arm_is_ready(pool, cx, scrut, arms, env, scope, exit);
    last_arms_are_alike(pool, cx, cx2, before.cx, before2.cx, scrut, arms, env, scope, exit);
    record_pat_facts(before.cx, pat, scrut);
    record_pat_facts(before2.cx, pat, scrut);
    with_binds_facts(env, pat.binds(), before.cx);
    let b = dropped(pool, cx1, body, exit);
    let q = dropped(pool, cx3, b.term, exit);
    let arm = arm_of(pat, b, before.cx.arm_shape(pat, scrut));
    let n = d.arms.len() - 1;
    assert(d.arms == before.arms.push(arm));
    assert(d.arms[n] == arm);
    assert(out.last() == out[n]);
    assert(dropped(pool, cx3, out[n].1, exit) == q);
    assert(scrut == LocalId(scrut.0));
    assert(before.cx.arm_shape(pat, scrut) == before2.cx.arm_shape(pat, scrut));
    assert(r.arms == before2.arms.push(arm_of(pat, q, before2.cx.arm_shape(pat, scrut))));
    assert(r.arms =~= d.arms);
    assert(r.live == d.live);
    assert(r.cx == q.cx);
    assert forall|x: u32| !all.contains(x) && x < cx.next implies #[trigger] same_on(cx2, r.cx, x) by {
        assert(same_on(cx2, before2.cx, x));
        record_pat_keeps(before2.cx, pat, scrut, x);
        assert(same_on(cx3, q.cx, x));
    }
    assert forall|l: u32| !arms_labels(arms).contains(l) implies (#[trigger] r.cx.conts.contains_key(l)
        <==> cx2.conts.contains_key(l)) && r.cx.conts[l] == cx2.conts[l] by {
        assert(before2.cx.conts.contains_key(l) <==> cx2.conts.contains_key(l));
        assert(q.cx.conts.contains_key(l) <==> cx3.conts.contains_key(l));
    }
    assert forall|i: int, x: u32|
        0 <= i < d.arms.len() && #[trigger] bound_set(d.arms[i].pat).contains(x) implies same_on(d.cx, r.cx, x)
        && all.contains(x) by {
        if i < n {
            assert(d.arms[i] == before.arms[i]);
            assert(bound_set(before.arms[i].pat).contains(x));
            assert(arms_binders(rest).contains(x));
            assert(all.contains(x));
            assert(!bound_set(pat).contains(x) && !binders(body).contains(x));
            record_pat_keeps(before.cx, pat, scrut, x);
            record_pat_keeps(before2.cx, pat, scrut, x);
            assert(x < cx.next);
            assert(same_on(cx1, d.cx, x) && same_on(cx3, q.cx, x));
        } else {
            assert(bound_set(pat).contains(x));
            assert(all.contains(x));
            assert(!binders(body).contains(x));
            assert(env1.contains_key(x));
            assert(same_on(cx1, cx3, x));
            assert(same_on(cx1, d.cx, x) && same_on(cx3, q.cx, x));
        }
    }
}

/// A `match` whose arms are made the same again is too.
proof fn match_is_remade(pool: ResolvedPool, cx: Cx, cx2: Cx, e: Term, env: Env, scope: Set<u32>, exit: ExitView)
    requires
        e is Match,
        ready(pool, cx, e, env, scope, exit),
        alike(cx, cx2, env, scope),
        arms_remade(pool, cx, cx2, e->scrut, e->arms, dropped(pool, cx, e, exit).term->arms, exit),
    ensures
        remade(pool, cx, cx2, e, exit),
{
    let scrut = e->scrut;
    let arms = e->arms;
    let d = dropped(pool, cx, e, exit);
    let all = dropped_arms(pool, cx, scrut, arms, exit);
    let out = d.term->arms;
    let again = dropped_arms(pool, cx2, scrut, out, exit);
    let r = dropped(pool, cx2, d.term, exit);
    assert(arms_ready(pool, cx, arms, env, scope, exit));
    arms_are_balanced(pool, cx, scrut, arms, env, scope, exit);
    dropping_arms_keeps(pool, cx, scrut, arms, exit);
    stays_alike(cx, all.cx, cx2, again.cx, env, scope, arms_binders(arms), arms_labels(arms), cx.next);
    assert forall|i: int| 0 <= i < out.len() implies r.term->arms[i] == out[i] by {
        let a = all.arms[i];
        let over = match a.scrut_shape {
            Some(s) => Some((scrut, s)),
            None => None,
        };
        let dead = arm_drops(all.live, scrut, a);
        let others = all.live.difference(a.live);
        let mid = if !all.live.contains(scrut.0) {
            seq![scrut]
        } else {
            Seq::<LocalId>::empty()
        };
        ascending_facts(others);
        assert(dead == ascending(others) + mid + a.dead_binders);
        assert forall|k: int| 0 <= k < dead.len() implies same_on(all.cx, again.cx, (#[trigger] dead[k]).0) by {
            let x = dead[k].0;
            let n = ascending(others).len() as int;
            let m = mid.len() as int;
            if k < n {
                assert(dead[k] == ascending(others)[k]);
                assert(env.dom().contains(x));
                assert(env.contains_key(x));
            } else if k < n + m {
                assert(dead[k] == scrut);
                assert(env.contains_key(x));
            } else {
                assert(dead[k] == a.dead_binders[k - n - m]);
                assert(a.dead_binders.contains(dead[k]));
                assert(dead[k] == LocalId(x));
                assert(numbers(a.dead_binders).contains(x));
                assert(bound_set(a.pat).contains(x));
            }
        }
        same_wrapping(pool, all.cx, again.cx, dead, over, a.term);
        assert(out[i] == finished_arm(pool, all.cx, all.live, scrut, a));
        assert(r.term->arms[i] == finished_arm(pool, again.cx, again.live, scrut, again.arms[i]));
    }
    assert(r.term->arms =~= out);
    assert(r.term == d.term);
    assert(r.live == d.live);
}

/// The drop pass makes the same again of what it made of a lowered body.
proof fn body_is_remade(pool: ResolvedPool, cx: Cx, cx2: Cx, e: Term, env: Env, scope: Set<u32>, exit: ExitView)
    requires
        ready(pool, cx, e, env, scope, exit),
        alike(cx, cx2, env, scope),
        untouched(cx, cx2, dropped(pool, cx, e, exit).cx, binders(e)),
        cx2.ok,
    ensures
        remade(pool, cx, cx2, e, exit),
    decreases e,
{
    let after = dropped(pool, cx, e, exit).cx;
    match e {
        Term::Let { bind, rhs, body } => {
            let s = rhs.shape();
            let_body_is_ready(pool, cx, e, env, scope, exit);
            assert(binders(e) =~= binders(*body).insert(bind.id.0));
            let_bodies_are_alike(pool, cx, cx2, bind, s, *body, env, scope, exit, after);
            body_is_remade(pool, cx.record(bind, s), cx2.record(bind, s), *body, with_bind(env, bind), scope, exit);
            let_is_remade(pool, cx, cx2, e, env, scope, exit);
        },
        Term::LetJoin { bind, join, body } => {
            let env1 = with_bind(env, bind);
            let b = dropped(pool, cx.record(bind, None), *body, exit);
            let r = dropped(pool, cx2.record(bind, None), b.term, exit);
            join_parts_are_ready(pool, cx, e, env, scope, exit);
            join_bodies_are_alike(pool, cx, cx2, e, env, scope, exit);
            body_is_remade(pool, cx.record(bind, None), cx2.record(bind, None), *body, env1, scope, exit);
            joins_are_alike(pool, cx, cx2, e, env, scope, exit);
            alike_in_less(b.cx, r.cx, env, bind, scope);
            body_is_remade(pool, b.cx, r.cx, *join, env, scope, join_exit(bind, b));
            join_is_remade(pool, cx, cx2, e, env, scope, exit);
        },
        Term::LetCont { id, cont, body } => {
            let c = dropped(pool, cx, *cont, exit);
            let r = dropped(pool, cx2, c.term, exit);
            let cx1 = with_cont(c.cx, id, c.live);
            let cx3 = with_cont(r.cx, id, r.live);
            cont_parts_are_ready(pool, cx, e, env, scope, exit);
            conts_are_alike(pool, cx, cx2, e, env, scope, exit);
            body_is_remade(pool, cx, cx2, *cont, env, scope, exit);
            body_is_remade(pool, cx1, cx3, *body, env, scope.insert(id.0), exit);
            cont_is_remade(pool, cx, cx2, e, env, scope, exit);
        },
        Term::Drop { local, shape, body } => {
            assert(ready(pool, cx, *body, env, scope, exit));
            body_is_remade(pool, cx, cx2, *body, env, scope, exit);
        },
        Term::Tail(a) => {
            tail_is_remade(pool, cx, cx2, a, env, scope, exit);
        },
        Term::Goto(id) => {
            assert(scope.contains(id.0));
        },
        Term::If { cond, yes, no, ty } => {
            let t = dropped(pool, cx, *yes, exit);
            let r = dropped(pool, cx2, t.term, exit);
            branches_are_ready(pool, cx, e, env, scope, exit);
            drop_pass_is_balanced(pool, cx, *yes, env, scope, exit);
            drop_pass_is_balanced(pool, t.cx, *no, env, scope, exit);
            dropping_keeps(pool, cx, *yes, exit);
            dropping_keeps(pool, t.cx, *no, exit);
            assert forall|x: u32| #[trigger] binders(*yes).contains(x) || binders(*no).contains(x) implies x < cx.next by {
                assert(binders(e).contains(x));
            }
            untouched_before(cx, cx2, t.cx, after, binders(*yes), binders(e), binders(*no), labels(*no), t.cx.next);
            body_is_remade(pool, cx, cx2, *yes, env, scope, exit);
            stays_alike(cx, t.cx, cx2, r.cx, env, scope, binders(*yes), labels(*yes), cx.next);
            still_untouched(
                cx,
                t.cx,
                cx2,
                r.cx,
                after,
                binders(*no),
                binders(e),
                binders(*yes),
                labels(*yes),
                cx.next,
            );
            body_is_remade(pool, t.cx, r.cx, *no, env, scope, exit);
            branches_are_remade(pool, cx, cx2, e, env, scope, exit);
        },
        Term::Match { scrut, arms, ty } => {
            let all = dropped_arms(pool, cx, scrut, arms, exit);
            let out = dropped(pool, cx, e, exit).term->arms;
            assert(arms_ready(pool, cx, arms, env, scope, exit));
            assert forall|i: int, c: Cx| 0 <= i < out.len() implies #[trigger] dropped(pool, c, out[i].1, exit) == dropped(
                pool,
                c,
                all.arms[i].term,
                exit,
            ) by {
                let a = all.arms[i];
                let over = match a.scrut_shape {
                    Some(s) => Some((scrut, s)),
                    None => None,
                };
                assert(out[i] == finished_arm(pool, all.cx, all.live, scrut, a));
                wrapping_is_ignored(pool, c, all.cx, arm_drops(all.live, scrut, a), over, a.term, exit);
            }
            assert(covers(pool, exit, out, all.arms));
            arms_are_remade(pool, cx, cx2, scrut, arms, out, env, scope, exit);
            match_is_remade(pool, cx, cx2, e, env, scope, exit);
        },
    }
}

proof fn arms_are_remade(
    pool: ResolvedPool,
    cx: Cx,
    cx2: Cx,
    scrut: LocalId,
    arms: Seq<(PatView, Term)>,
    out: Seq<(PatView, Term)>,
    env: Env,
    scope: Set<u32>,
    exit: ExitView,
)
    requires
        env.contains_key(scrut.0),
        arms_ready(pool, cx, arms, env, scope, exit),
        alike(cx, cx2, env, scope),
        untouched(cx, cx2, dropped_arms(pool, cx, scrut, arms, exit).cx, arms_binders(arms)),
        cx2.ok,
        covers(pool, exit, out, dropped_arms(pool, cx, scrut, arms, exit).arms),
    ensures
        arms_remade(pool, cx, cx2, scrut, arms, out, exit),
    decreases arms,
{
    let d = dropped_arms(pool, cx, scrut, arms, exit);
    if arms.len() == 0 {
        assert(dropped_arms(pool, cx2, scrut, out, exit).arms =~= d.arms);
    } else {
        let rest = arms.drop_last();
        let less = out.drop_last();
        let pat = arms.last().0;
        let body = arms.last().1;
        let before = dropped_arms(pool, cx, scrut, rest, exit);
        let cx1 = before.cx.record_pat(pat, scrut);
        last_arm_is_ready(pool, cx, scrut, arms, env, scope, exit);
        drop_pass_is_balanced(pool, cx1, body, with_binds(env, pat.binds()), scope, exit);
        dropping_keeps(pool, cx1, body, exit);
        record_pat_facts(before.cx, pat, scrut);
        assert(d.arms.len() == before.arms.len() + 1);
        assert forall|x: u32| #[trigger] arms_binders(rest).contains(x) implies cx.shape_of(LocalId(x)) is None && (cx2.shape_of(
            LocalId(x),
        ) is None || cx2.shape_of(LocalId(x)) == before.cx.shape_of(LocalId(x))) by {
            assert(arms_binders(arms).contains(x));
            assert(!bound_set(pat).contains(x) && !binders(body).contains(x));
            record_pat_keeps(before.cx, pat, scrut, x);
            assert(same_on(cx1, d.cx, x));
        }
        assert(covers(pool, exit, less, before.arms)) by {
            assert forall|i: int| 0 <= i < less.len() implies (#[trigger] less[i]).0 == before.arms[i].pat by {
                assert(less[i] == out[i] && d.arms[i] == before.arms[i]);
            }
            assert forall|i: int, c: Cx| 0 <= i < less.len() implies #[trigger] dropped(pool, c, less[i].1, exit)
                == dropped(pool, c, before.arms[i].term, exit) by {
                assert(less[i] == out[i] && d.arms[i] == before.arms[i]);
                assert(dropped(pool, c, out[i].1, exit) == dropped(pool, c, d.arms[i].term, exit));
            }
        }
        arms_are_remade(pool, cx, cx2, scrut, rest, less, env, scope, exit);
        let before2 = dropped_arms(pool, cx2, scrut, less, exit);
        last_arms_are_alike(pool, cx, cx2, before.cx, before2.cx, scrut, arms, env, scope, exit);
        record_pat_facts(before2.cx, pat, scrut);
        body_is_remade(
            pool,
            cx1,
            before2.cx.record_pat(pat, scrut),
            body,
            with_binds(env, pat.binds()),
            scope,
            exit,
        );
        last_arm_is_remade(pool, cx, cx2, scrut, arms, out, env, scope, exit);
    }
}

/// Run again on what it made of a lowered body, the drop pass makes that again: the same body,
/// which reads the same locals from outside. So it is whether the second run knows what the first
/// knew at its start or what it knew at its end, and whether or not values go into joins.
pub proof fn rerunning_a_lowered_body_changes_nothing(
    pool: ResolvedPool,
    cx: Cx,
    e: Term,
    env: Env,
    scope: Set<u32>,
    exit: ExitView,
)
    requires
        ready(pool, cx, e, env, scope, exit),
        forall|x: u32| #[trigger] binders(e).contains(x) ==> cx.shape_of(LocalId(x)) is None,
    ensures
        ({
            let d = dropped(pool, cx, e, exit);
            let again = dropped(pool, cx, d.term, exit);
            let on = dropped(pool, d.cx, d.term, exit);
            &&& again.term == d.term && again.live == d.live && again.cx.ok
            &&& on.term == d.term && on.live == d.live && on.cx.ok
        }),
{
    let d = dropped(pool, cx, e, exit);
    drop_pass_is_balanced(pool, cx, e, env, scope, exit);
    dropping_keeps(pool, cx, e, exit);
    assert(alike(cx, cx, env, scope));
    body_is_remade(pool, cx, cx, e, env, scope, exit);
    assert forall|x: u32| #[trigger] env.contains_key(x) implies same_on(cx, d.cx, x) by {
        assert(env.dom().contains(x));
        assert(!binders(e).contains(x));
    }
    assert forall|l: u32| #[trigger] scope.contains(l) implies d.cx.conts.contains_key(l) && d.cx.conts[l] == cx.conts[l] by {
        assert(!labels(e).contains(l));
        assert(d.cx.conts.contains_key(l) <==> cx.conts.contains_key(l));
    }
    body_is_remade(pool, cx, d.cx, e, env, scope, exit);
}

/// So it is of the body of every lowered function, from what is known on entry to it.
pub proof fn rerunning_on_a_lowered_function_changes_nothing(pool: ResolvedPool, f: CoreFn)
    requires
        lowered_fn(pool, f),
    ensures
        ({
            let d = dropped_fn(pool, f);
            let again = dropped(pool, entry(f), d.term, ExitView::Return);
            let on = dropped(pool, d.cx, d.term, ExitView::Return);
            &&& again.term == d.term && again.live == d.live && again.cx.ok
            &&& on.term == d.term && on.live == d.live && on.cx.ok
        }),
{
    let e = f.body.view();
    let env = fn_env(f);
    let cx = entry(f);
    numbered_below(pool, f);
    record_all_keeps(start(fn_end(f) as u32), f.params@);
    assert(ready(pool, cx, e, env, Set::empty(), ExitView::Return));
    rerunning_a_lowered_body_changes_nothing(pool, cx, e, env, Set::empty(), ExitView::Return);
}

} // verus!
