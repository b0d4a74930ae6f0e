//! Every path releases every owned slot exactly once.
//!
//! [`owns`] checks a body against the references its frame holds. It fails where a
//! slot is released twice or while it holds nothing, where a local is read after
//! its release, and where a path ends still holding a reference that does not
//! leave with the value.
use vstd::prelude::*;

use crate::core_ir::drops::{
    arm_drops, arm_of, bound, bound_set, dropped, dropped_arms, dying, finished_arm, ids_of,
    join_exit, rebuilt_join, record_all_keeps, with_cont, wrapped, Arm, Cx, ExitView,
};
use crate::core_ir::extent::{arms_end, end_of, fn_end, ids_end, ids_end_is_natural};
use crate::core_ir::ids::{ascending, ascending_exists};
use crate::core_ir::perceus::{dropped_fn, entry, released, start};
use crate::core_ir::reuse::{
    besides, let_take, on_all, paired, paired_arms, parked, reused, seed, tail_take, Token,
};
use crate::core_ir::types::{RTy, ResolvedPool};
use crate::core_ir::{AtomView, CoreBind, CoreFn, LocalId, PatView, ReuseShape, Term};

verus! {

/// The types of the locals in scope.
pub type Env = Map<u32, RTy>;

/// `b` comes into scope.
pub open spec fn with_bind(env: Env, b: CoreBind) -> Env {
    env.insert(b.id.0, b.ty)
}

/// Every bind of `bs` comes into scope.
pub open spec fn with_binds(env: Env, bs: Seq<CoreBind>) -> Env
    decreases bs.len(),
{
    if bs.len() == 0 {
        env
    } else {
        with_bind(with_binds(env, bs.drop_last()), bs.last())
    }
}

/// The local numbered `n` may hold a cell.
pub open spec fn may_hold(pool: ResolvedPool, env: Env, n: u32) -> bool {
    env.contains_key(n) && pool.heap(env[n])
}

/// Those of `s` that may hold a cell.
pub open spec fn held(pool: ResolvedPool, env: Env, s: Set<u32>) -> Set<u32> {
    Set::new(|n: u32| s.contains(n) && may_hold(pool, env, n))
}

/// The reference that binding `b` brings.
pub open spec fn brought(pool: ResolvedPool, b: CoreBind) -> Set<u32> {
    if pool.heap(b.ty) {
        set![b.id.0]
    } else {
        Set::empty()
    }
}

/// The atom takes a local's reference out of its slot.
pub open spec fn is_move(a: AtomView) -> bool {
    a is Move
}

/// `s` is a set of slots. Any is.
pub open spec fn is_slots(s: Set<u32>) -> bool {
    true
}

/// The body releases what it owns.
///
/// `owned` are the slots that hold a reference on entry. `conts` says of each
/// continuation what it owns on entry. `exit` says what a `Tail` must leave.
pub open spec fn owns(
    pool: ResolvedPool,
    e: Term,
    env: Env,
    owned: Set<u32>,
    conts: Map<u32, Set<u32>>,
    exit: ExitView,
) -> bool
    decreases e,
{
    match e {
        Term::Let { bind, rhs, body } => {
            &&& !is_move(rhs)
            &&& held(pool, env, rhs.reads()).subset_of(owned)
            &&& !owned.contains(bind.id.0)
            &&& owns(pool, *body, with_bind(env, bind), owned.union(brought(pool, bind)), conts, exit)
        },
        Term::LetJoin { bind, join, body } => exists|after: Set<u32>|
            {
                &&& #[trigger] is_slots(after)
                &&& after.subset_of(env.dom())
                &&& owns(pool, *join, env, owned, conts, ExitView::Join { ty: bind.ty, after })
                &&& !after.contains(bind.id.0)
                &&& owns(pool, *body, with_bind(env, bind), after.union(brought(pool, bind)), conts, exit)
            },
        Term::LetCont { id, cont, body } => exists|needs: Set<u32>|
            {
                &&& #[trigger] is_slots(needs)
                &&& needs.subset_of(env.dom())
                &&& owns(pool, *cont, env, needs, conts, exit)
                &&& owns(pool, *body, env, owned, conts.insert(id.0, needs), exit)
            },
        Term::Drop { local, shape, body } => {
            &&& owned.contains(local.0)
            &&& owns(pool, *body, env, owned.remove(local.0), conts, exit)
        },
        Term::Tail(a) => match exit {
            ExitView::Return => !is_move(a) && held(pool, env, a.reads()) == owned,
            ExitView::Join { ty, after } => match a {
                AtomView::Move(x) => owned.contains(x.0) && !after.contains(x.0) && owned.remove(x.0) == after,
                _ => owned == after && held(pool, env, a.reads()).subset_of(owned),
            },
        },
        Term::Goto(id) => conts.contains_key(id.0) && conts[id.0] == owned,
        Term::If { cond, yes, no, ty } => {
            &&& owns(pool, *yes, env, owned, conts, exit)
            &&& owns(pool, *no, env, owned, conts, exit)
        },
        Term::Match { scrut, arms, ty } => {
            &&& may_hold(pool, env, scrut.0) ==> owned.contains(scrut.0)
            &&& forall|i: int|
                0 <= i < arms.len() ==> bound_set(arms[i].0).disjoint(env.dom()) && owns(
                    pool,
                    (#[trigger] arms[i]).1,
                    with_binds(env, arms[i].0.binds()),
                    owned.union(held(pool, with_binds(env, arms[i].0.binds()), bound_set(arms[i].0))),
                    conts,
                    exit,
                )
        },
    }
}

/// The locals that `e` binds.
pub open spec fn binders(e: Term) -> Set<u32>
    decreases e,
{
    match e {
        Term::Let { bind, rhs, body } => binders(*body).insert(bind.id.0),
        Term::LetJoin { bind, join, body } => binders(*join).union(binders(*body)).insert(bind.id.0),
        Term::LetCont { id, cont, body } => binders(*cont).union(binders(*body)),
        Term::Drop { local, shape, body } => binders(*body),
        Term::Tail(a) => Set::empty(),
        Term::Goto(id) => Set::empty(),
        Term::If { cond, yes, no, ty } => binders(*yes).union(binders(*no)),
        Term::Match { scrut, arms, ty } => arms_binders(arms),
    }
}

/// The locals that some arms bind.
pub open spec fn arms_binders(arms: Seq<(PatView, Term)>) -> Set<u32>
    decreases arms,
{
    if arms.len() == 0 {
        Set::empty()
    } else {
        arms_binders(arms.drop_last()).union(bound_set(arms.last().0)).union(binders(arms.last().1))
    }
}

/// The continuations that `e` names.
pub open spec fn labels(e: Term) -> Set<u32>
    decreases e,
{
    match e {
        Term::Let { bind, rhs, body } => labels(*body),
        Term::LetJoin { bind, join, body } => labels(*join).union(labels(*body)),
        Term::LetCont { id, cont, body } => labels(*cont).union(labels(*body)).insert(id.0),
        Term::Drop { local, shape, body } => labels(*body),
        Term::Tail(a) => Set::empty(),
        Term::Goto(id) => Set::empty(),
        Term::If { cond, yes, no, ty } => labels(*yes).union(labels(*no)),
        Term::Match { scrut, arms, ty } => arms_labels(arms),
    }
}

/// The continuations that some arms name.
pub open spec fn arms_labels(arms: Seq<(PatView, Term)>) -> Set<u32>
    decreases arms,
{
    if arms.len() == 0 {
        Set::empty()
    } else {
        arms_labels(arms.drop_last()).union(labels(arms.last().1))
    }
}

/// The number of `Tail`s of `e`, each of which may mint one local.
pub open spec fn tails(e: Term) -> nat
    decreases e,
{
    match e {
        Term::Let { bind, rhs, body } => tails(*body),
        Term::LetJoin { bind, join, body } => tails(*join) + tails(*body),
        Term::LetCont { id, cont, body } => tails(*cont) + tails(*body),
        Term::Drop { local, shape, body } => tails(*body),
        Term::Tail(a) => 1,
        Term::Goto(id) => 0,
        Term::If { cond, yes, no, ty } => tails(*yes) + tails(*no),
        Term::Match { scrut, arms, ty } => arms_tails(arms),
    }
}

/// The number of `Tail`s of some arms.
pub open spec fn arms_tails(arms: Seq<(PatView, Term)>) -> nat
    decreases arms,
{
    if arms.len() == 0 {
        0
    } else {
        arms_tails(arms.drop_last()) + tails(arms.last().1)
    }
}

/// `e` is a lowered body, as Perceus is given it: locals and continuations are
/// named once, read only in scope, and no condition or move holds a cell.
///
/// `env` are the locals in scope and `scope` the continuations.
pub open spec fn lowered(pool: ResolvedPool, e: Term, env: Env, scope: Set<u32>) -> bool
    decreases e,
{
    match e {
        Term::Let { bind, rhs, body } => {
            &&& !is_move(rhs)
            &&& rhs.reads().subset_of(env.dom())
            &&& !env.contains_key(bind.id.0)
            &&& !binders(*body).contains(bind.id.0)
            &&& lowered(pool, *body, with_bind(env, bind), scope)
        },
        Term::LetJoin { bind, join, body } => {
            &&& !env.contains_key(bind.id.0)
            &&& !binders(*body).contains(bind.id.0)
            &&& !binders(*join).contains(bind.id.0)
            &&& binders(*join).disjoint(binders(*body))
            &&& labels(*join).disjoint(labels(*body))
            &&& lowered(pool, *join, env, scope)
            &&& lowered(pool, *body, with_bind(env, bind), scope)
        },
        Term::LetCont { id, cont, body } => {
            &&& !scope.contains(id.0)
            &&& !labels(*cont).contains(id.0)
            &&& !labels(*body).contains(id.0)
            &&& binders(*cont).disjoint(binders(*body))
            &&& labels(*cont).disjoint(labels(*body))
            &&& lowered(pool, *cont, env, scope)
            &&& lowered(pool, *body, env, scope.insert(id.0))
        },
        Term::Drop { local, shape, body } => lowered(pool, *body, env, scope),
        Term::Tail(a) => !is_move(a) && a.reads().subset_of(env.dom()),
        Term::Goto(id) => scope.contains(id.0),
        Term::If { cond, yes, no, ty } => {
            &&& env.contains_key(cond.0)
            &&& !may_hold(pool, env, cond.0)
            &&& binders(*yes).disjoint(binders(*no))
            &&& labels(*yes).disjoint(labels(*no))
            &&& lowered(pool, *yes, env, scope)
            &&& lowered(pool, *no, env, scope)
        },
        Term::Match { scrut, arms, ty } => env.contains_key(scrut.0) && lowered_arms(pool, arms, env, scope),
    }
}

/// Some arms are lowered, as [`lowered`] says.
pub open spec fn lowered_arms(pool: ResolvedPool, arms: Seq<(PatView, Term)>, env: Env, scope: Set<u32>) -> bool
    decreases arms,
{
    arms.len() == 0 || {
        let pat = arms.last().0;
        let body = arms.last().1;
        let before = arms.drop_last();
        &&& lowered_arms(pool, before, env, scope)
        &&& bound(pat).no_duplicates()
        &&& bound_set(pat).disjoint(env.dom())
        &&& bound_set(pat).disjoint(binders(body))
        &&& bound_set(pat).disjoint(arms_binders(before))
        &&& arms_binders(before).disjoint(binders(body))
        &&& arms_labels(before).disjoint(labels(body))
        &&& lowered(pool, body, with_binds(env, pat.binds()), scope)
    }
}

/// `cx2` knows what `cx` knew, but for the locals `bs`, the continuations `ls`, and
/// what was minted since.
pub open spec fn extends(cx: Cx, cx2: Cx, bs: Set<u32>, ls: Set<u32>) -> bool {
    &&& cx.next <= cx2.next
    &&& forall|x: u32|
        !bs.contains(x) && x < cx.next ==> (#[trigger] cx2.ty.contains_key(x) <==> cx.ty.contains_key(x)) && cx2.ty[x]
            == cx.ty[x]
    &&& forall|l: u32|
        !ls.contains(l) ==> (#[trigger] cx2.conts.contains_key(l) <==> cx.conts.contains_key(l)) && cx2.conts[l]
            == cx.conts[l]
}

/// What is known of the locals in scope is true.
pub open spec fn agrees(cx: Cx, env: Env) -> bool {
    forall|x: u32| #[trigger]
        env.contains_key(x) ==> cx.ty.contains_key(x) && cx.ty[x] == env[x] && x < cx.next
}

/// Each continuation in scope is known, and reads only locals in scope.
pub open spec fn knows(cx: Cx, env: Env, scope: Set<u32>) -> bool {
    forall|l: u32| #[trigger]
        scope.contains(l) ==> cx.conts.contains_key(l) && cx.conts[l].subset_of(env.dom())
}

/// What each continuation in scope owns on entry.
pub open spec fn held_conts(pool: ResolvedPool, env: Env, cx: Cx, scope: Set<u32>) -> Map<u32, Set<u32>> {
    Map::new(|l: u32| scope.contains(l), |l: u32| held(pool, env, cx.conts[l]))
}

/// What a `Tail` leaves owned.
pub open spec fn held_exit(pool: ResolvedPool, env: Env, exit: ExitView) -> ExitView {
    match exit {
        ExitView::Return => ExitView::Return,
        ExitView::Join { ty, after } => ExitView::Join { ty, after: held(pool, env, after) },
    }
}

/// What a `Tail` leaves owned is in scope.
pub open spec fn exit_in_scope(env: Env, exit: ExitView) -> bool {
    match exit {
        ExitView::Return => true,
        ExitView::Join { ty, after } => after.subset_of(env.dom()),
    }
}

/// The numbers of `ids`.
pub open spec fn numbers(ids: Seq<LocalId>) -> Set<u32> {
    Set::new(|n: u32| ids.contains(LocalId(n)))
}

/// A body behind releases of what it does not own is a body that owns that too.
proof fn wrapped_owns(
    pool: ResolvedPool,
    cx: Cx,
    dead: Seq<LocalId>,
    arm: Option<(LocalId, ReuseShape)>,
    body: Term,
    env: Env,
    owned: Set<u32>,
    conts: Map<u32, Set<u32>>,
    exit: ExitView,
)
    requires
        dead.no_duplicates(),
        agrees(cx, env),
        forall|i: int| 0 <= i < dead.len() ==> env.contains_key((#[trigger] dead[i]).0),
        forall|i: int| 0 <= i < dead.len() && may_hold(pool, env, (#[trigger] dead[i]).0) ==> owned.contains(dead[i].0),
        owns(pool, body, env, owned.difference(held(pool, env, numbers(dead))), conts, exit),
    ensures
        owns(pool, wrapped(pool, cx, dead, arm, body), env, owned, conts, exit),
    decreases dead.len(),
{
    if dead.len() == 0 {
        assert(owned.difference(held(pool, env, numbers(dead))) =~= owned);
    } else {
        let x = dead[0];
        let rest = dead.drop_first();
        assert(env.contains_key(x.0));
        assert forall|i: int| 0 <= i < rest.len() implies env.contains_key((#[trigger] rest[i]).0) by {
            assert(rest[i] == dead[i + 1]);
        }
        assert forall|n: u32| #[trigger] numbers(dead).contains(n) <==> n == x.0 || numbers(rest).contains(n) by {
            if dead.contains(LocalId(n)) {
                let i = choose|i: int| 0 <= i < dead.len() && dead[i] == LocalId(n);
                if i > 0 {
                    assert(rest[i - 1] == LocalId(n));
                }
            }
            if rest.contains(LocalId(n)) {
                let i = choose|i: int| 0 <= i < rest.len() && rest[i] == LocalId(n);
                assert(dead[i + 1] == LocalId(n));
            }
            if n == x.0 {
                assert(dead[0] == LocalId(n));
            }
        }
        assert(!rest.contains(x)) by {
            if rest.contains(x) {
                let i = choose|i: int| 0 <= i < rest.len() && rest[i] == x;
                assert(dead[i + 1] == dead[0]);
            }
        }
        assert(rest.no_duplicates());
        let left = if may_hold(pool, env, x.0) {
            owned.remove(x.0)
        } else {
            owned
        };
        assert forall|i: int| 0 <= i < rest.len() && may_hold(pool, env, (#[trigger] rest[i]).0) implies left.contains(rest[i].0) by {
            assert(rest[i] == dead[i + 1]);
            assert(rest.contains(rest[i]));
        }
        assert(left.difference(held(pool, env, numbers(rest))) =~= owned.difference(held(pool, env, numbers(dead))));
        wrapped_owns(pool, cx, rest, arm, body, env, left, conts, exit);
        assert(cx.heap(pool, x) == may_hold(pool, env, x.0));
    }
}

/// An ascending listing repeats nothing.
pub proof fn ascending_facts(s: Set<u32>)
    ensures
        ascending(s).no_duplicates(),
        numbers(ascending(s)) == s,
        forall|i: int| 0 <= i < ascending(s).len() ==> s.contains((#[trigger] ascending(s)[i]).0),
{
    ascending_exists(s);
    let q = ascending(s);
    assert(numbers(q) =~= s);
    assert forall|i: int| 0 <= i < q.len() implies s.contains((#[trigger] q[i]).0) by {
        assert(q.contains(q[i]));
        assert(q[i] == LocalId(q[i].0));
        assert(q.contains(LocalId(q[i].0)));
    }
}

/// What binding `bs` brings into scope, and records.
pub proof fn with_binds_facts(env: Env, bs: Seq<CoreBind>, cx: Cx)
    ensures
        forall|n: u32|
            (#[trigger] with_binds(env, bs).contains_key(n)) <==> env.contains_key(n) || ids_of(bs).contains(LocalId(n)),
        forall|n: u32|
            #![trigger with_binds(env, bs)[n]]
            !ids_of(bs).contains(LocalId(n)) ==> with_binds(env, bs)[n] == env[n],
        forall|n: u32|
            #![trigger cx.record_all(bs).ty.contains_key(n)]
            ids_of(bs).contains(LocalId(n)) ==> cx.record_all(bs).ty.contains_key(n) && cx.record_all(bs).ty[n]
                == with_binds(env, bs)[n],
        forall|n: u32|
            #![trigger cx.record_all(bs).ty.contains_key(n)]
            !ids_of(bs).contains(LocalId(n)) ==> (cx.record_all(bs).ty.contains_key(n) <==> cx.ty.contains_key(n))
                && cx.record_all(bs).ty[n] == cx.ty[n],
    decreases bs.len(),
{
    let ids = ids_of(bs);
    if bs.len() > 0 {
        let before = bs.drop_last();
        with_binds_facts(env, before, cx);
        let ids0 = ids_of(before);
        assert(ids =~= ids0.push(bs.last().id));
        assert forall|n: u32| ids.contains(LocalId(n)) <==> ids0.contains(LocalId(n)) || bs.last().id.0 == n by {
            if ids.contains(LocalId(n)) {
                let i = choose|i: int| 0 <= i < ids.len() && ids[i] == LocalId(n);
                if i < ids0.len() {
                    assert(ids0[i] == LocalId(n));
                }
            }
            if ids0.contains(LocalId(n)) {
                let i = choose|i: int| 0 <= i < ids0.len() && ids0[i] == LocalId(n);
                assert(ids[i] == LocalId(n));
            }
            if bs.last().id.0 == n {
                assert(ids[ids0.len() as int] == LocalId(n));
            }
        }
        let w = with_binds(env, bs);
        let w0 = with_binds(env, before);
        assert(w == w0.insert(bs.last().id.0, bs.last().ty));
        assert forall|n: u32| #[trigger] w.contains_key(n) <==> env.contains_key(n) || ids.contains(LocalId(n)) by {
            assert(w0.contains_key(n) <==> env.contains_key(n) || ids0.contains(LocalId(n)));
        }
        assert forall|n: u32| !ids.contains(LocalId(n)) implies #[trigger] w[n] == env[n] by {
            assert(w0[n] == env[n]);
            assert(n != bs.last().id.0);
        }
        let r = cx.record_all(bs).ty;
        let r0 = cx.record_all(before).ty;
        assert(r == r0.insert(bs.last().id.0, bs.last().ty));
        assert forall|n: u32| ids.contains(LocalId(n)) implies #[trigger] r.contains_key(n) && r[n] == w[n] by {
            assert(ids0.contains(LocalId(n)) ==> r0.contains_key(n) && r0[n] == w0[n]);
        }
        assert forall|n: u32| !ids.contains(LocalId(n)) implies (#[trigger] r.contains_key(n) <==> cx.ty.contains_key(n)) && r[n]
            == cx.ty[n] by {
            assert((r0.contains_key(n) <==> cx.ty.contains_key(n)) && r0[n] == cx.ty[n]);
            assert(n != bs.last().id.0);
        }
    }
}

/// More locals in scope change nothing about those that were.
proof fn held_in_more(pool: ResolvedPool, env: Env, env2: Env, s: Set<u32>)
    requires
        s.subset_of(env.dom()),
        forall|n: u32| #[trigger] env.contains_key(n) ==> env2.contains_key(n) && env2[n] == env[n],
    ensures
        held(pool, env2, s) == held(pool, env, s),
{
    assert forall|n: u32| held(pool, env2, s).contains(n) <==> held(pool, env, s).contains(n) by {
        if s.contains(n) {
            assert(env.dom().contains(n));
            assert(env.contains_key(n));
        }
    }
    assert(held(pool, env2, s) =~= held(pool, env, s));
}

/// More locals in scope change nothing about the continuations and the exit.
pub proof fn surroundings_in_more(pool: ResolvedPool, env: Env, env2: Env, cx: Cx, cx2: Cx, scope: Set<u32>, exit: ExitView)
    requires
        knows(cx, env, scope),
        exit_in_scope(env, exit),
        forall|n: u32| #[trigger] env.contains_key(n) ==> env2.contains_key(n) && env2[n] == env[n],
        forall|l: u32| scope.contains(l) ==> cx2.conts.contains_key(l) && #[trigger] cx2.conts[l] == cx.conts[l],
    ensures
        knows(cx2, env2, scope),
        exit_in_scope(env2, exit),
        held_conts(pool, env2, cx2, scope) == held_conts(pool, env, cx, scope),
        held_exit(pool, env2, exit) == held_exit(pool, env, exit),
{
    assert forall|l: u32| #[trigger] scope.contains(l) implies cx2.conts.contains_key(l) && cx2.conts[l].subset_of(env2.dom()) by {
        assert(cx2.conts[l] == cx.conts[l]);
        assert forall|n: u32| cx.conts[l].contains(n) implies env2.dom().contains(n) by {
            assert(env.dom().contains(n));
            assert(env.contains_key(n));
        }
    }
    let a = held_conts(pool, env2, cx2, scope);
    let b = held_conts(pool, env, cx, scope);
    assert forall|l: u32| scope.contains(l) implies a[l] == b[l] by {
        assert(cx2.conts[l] == cx.conts[l]);
        held_in_more(pool, env, env2, cx.conts[l]);
    }
    assert(a =~= b);
    match exit {
        ExitView::Return => {},
        ExitView::Join { ty, after } => {
            held_in_more(pool, env, env2, after);
            assert forall|n: u32| after.contains(n) implies env2.dom().contains(n) by {
                assert(env.dom().contains(n));
                assert(env.contains_key(n));
            }
        },
    }
}

/// What Perceus is given, and where.
pub open spec fn ready(pool: ResolvedPool, cx: Cx, e: Term, env: Env, scope: Set<u32>, exit: ExitView) -> bool {
    &&& lowered(pool, e, env, scope)
    &&& binders(e).disjoint(env.dom())
    &&& forall|n: u32| #[trigger] binders(e).contains(n) ==> n < cx.next
    &&& labels(e).disjoint(scope)
    &&& agrees(cx, env)
    &&& knows(cx, env, scope)
    &&& exit_in_scope(env, exit)
    &&& 0 <= cx.next
    &&& cx.next + tails(e) <= u32::MAX
    &&& cx.ok
}

/// What Perceus makes of it: a body that owns what it reads from outside.
pub open spec fn done(pool: ResolvedPool, cx: Cx, e: Term, env: Env, scope: Set<u32>, exit: ExitView) -> bool {
    let d = dropped(pool, cx, e, exit);
    &&& d.cx.ok
    &&& d.cx.next <= cx.next + tails(e)
    &&& d.live.subset_of(env.dom())
    &&& extends(cx, d.cx, binders(e), labels(e))
    &&& owns(
        pool,
        d.term,
        env,
        held(pool, env, d.live),
        held_conts(pool, env, cx, scope),
        held_exit(pool, env, exit),
    )
}

proof fn let_is_balanced(pool: ResolvedPool, cx: Cx, e: Term, env: Env, scope: Set<u32>, exit: ExitView)
    requires
        e is Let,
        ready(pool, cx, e, env, scope, exit),
        ready(pool, cx.record(e->Let_bind, e->rhs.shape()), *e->Let_body, with_bind(env, e->Let_bind), scope, exit) ==> done(
            pool,
            cx.record(e->Let_bind, e->rhs.shape()),
            *e->Let_body,
            with_bind(env, e->Let_bind),
            scope,
            exit,
        ),
    ensures
        done(pool, cx, e, env, scope, exit),
{
    let bind = e->Let_bind;
    let rhs = e->rhs;
    let body = *e->Let_body;
    let cx1 = cx.record(bind, rhs.shape());
    let env1 = with_bind(env, bind);
    assert(binders(e).contains(bind.id.0));
    assert forall|n: u32| binders(body).contains(n) implies !env1.dom().contains(n) && n < cx1.next by {
        assert(binders(e).contains(n));
    }
    assert(binders(body).disjoint(env1.dom()));
    surroundings_in_more(pool, env, env1, cx, cx1, scope, exit);
    assert(ready(pool, cx1, body, env1, scope, exit));
    let b = dropped(pool, cx1, body, exit);
    let d = dropped(pool, cx, e, exit);
    assert(d.live =~= b.live.remove(bind.id.0).union(rhs.reads()));
    assert(d.live.subset_of(env.dom())) by {
        assert forall|n: u32| d.live.contains(n) implies env.dom().contains(n) by {
            if b.live.contains(n) && n != bind.id.0 {
                assert(env1.dom().contains(n));
            }
        }
    }
    // What is released between the two.
    let gone = rhs.reads().difference(b.live);
    let tail = if !b.live.contains(bind.id.0) {
        seq![bind.id]
    } else {
        Seq::<LocalId>::empty()
    };
    let dead = ascending(gone) + tail;
    ascending_facts(gone);
    assert(!gone.contains(bind.id.0));
    assert(dead.no_duplicates()) by {
        assert forall|i: int, j: int| 0 <= i < dead.len() && 0 <= j < dead.len() && i != j implies dead[i] != dead[j] by {
            let k = ascending(gone).len();
            if i < k {
                assert(gone.contains(ascending(gone)[i].0));
            }
            if j < k {
                assert(gone.contains(ascending(gone)[j].0));
            }
        }
    }
    assert forall|n: u32| #[trigger] numbers(dead).contains(n) <==> gone.contains(n) || (n == bind.id.0 && !b.live.contains(n)) by {
        let k = ascending(gone).len();
        if dead.contains(LocalId(n)) {
            let i = choose|i: int| 0 <= i < dead.len() && dead[i] == LocalId(n);
            if i < k {
                assert(ascending(gone)[i] == LocalId(n));
            }
        }
        if gone.contains(n) {
            assert(numbers(ascending(gone)).contains(n));
            let i = choose|i: int| 0 <= i < k && ascending(gone)[i] == LocalId(n);
            assert(dead[i] == LocalId(n));
        }
        if n == bind.id.0 && !b.live.contains(n) {
            assert(dead[k as int] == LocalId(n));
        }
    }
    let owned = held(pool, env, d.live);
    let owned1 = owned.union(brought(pool, bind));
    assert(agrees(b.cx, env1)) by {
        assert forall|x: u32| #[trigger] env1.contains_key(x) implies b.cx.ty.contains_key(x) && b.cx.ty[x] == env1[x]
            && x < b.cx.next by {
            assert(!binders(body).contains(x));
            assert(x < cx1.next);
            assert(b.cx.ty.contains_key(x) <==> cx1.ty.contains_key(x));
        }
    }
    assert forall|i: int| 0 <= i < dead.len() implies env1.contains_key((#[trigger] dead[i]).0) && (may_hold(pool, env1, dead[i].0)
        ==> owned1.contains(dead[i].0)) by {
        assert(dead.contains(dead[i]));
        assert(dead[i] == LocalId(dead[i].0));
        assert(numbers(dead).contains(dead[i].0));
        if gone.contains(dead[i].0) {
            assert(env.dom().contains(dead[i].0));
        }
    }
    assert(owned1.difference(held(pool, env1, numbers(dead))) =~= held(pool, env1, b.live)) by {
        assert forall|n: u32|
            owned1.difference(held(pool, env1, numbers(dead))).contains(n) <==> held(pool, env1, b.live).contains(n) by {
            assert(numbers(dead).contains(n) <==> gone.contains(n) || (n == bind.id.0 && !b.live.contains(n)));
            assert(!env.contains_key(bind.id.0));
            if b.live.contains(n) {
                assert(env1.dom().contains(n));
                assert(n != bind.id.0 ==> d.live.contains(n));
            }
            if n != bind.id.0 {
                assert(may_hold(pool, env1, n) == may_hold(pool, env, n));
                assert(!brought(pool, bind).contains(n));
            } else {
                assert(!owned.contains(n));
                assert(may_hold(pool, env1, n) == pool.heap(bind.ty));
            }
        }
    }
    wrapped_owns(
        pool,
        b.cx,
        dead,
        None,
        b.term,
        env1,
        owned1,
        held_conts(pool, env, cx, scope),
        held_exit(pool, env, exit),
    );
    assert(extends(cx, d.cx, binders(e), labels(e)));
}

proof fn join_is_balanced(pool: ResolvedPool, cx: Cx, e: Term, env: Env, scope: Set<u32>, exit: ExitView)
    requires
        e is LetJoin,
        ready(pool, cx, e, env, scope, exit),
        ({
            let cx1 = cx.record(e->LetJoin_bind, None);
            let env1 = with_bind(env, e->LetJoin_bind);
            let body = *e->LetJoin_body;
            let b = dropped(pool, cx1, body, exit);
            let out = join_exit(e->LetJoin_bind, b);
            &&& ready(pool, cx1, body, env1, scope, exit) ==> done(pool, cx1, body, env1, scope, exit)
            &&& ready(pool, b.cx, *e->join, env, scope, out) ==> done(pool, b.cx, *e->join, env, scope, out)
        }),
    ensures
        done(pool, cx, e, env, scope, exit),
{
    let bind = e->LetJoin_bind;
    let join = *e->join;
    let body = *e->LetJoin_body;
    let cx1 = cx.record(bind, None);
    let env1 = with_bind(env, bind);
    assert(binders(e).contains(bind.id.0));
    assert forall|n: u32| binders(body).contains(n) implies !env1.dom().contains(n) && n < cx1.next by {
        assert(binders(e).contains(n));
    }
    assert(binders(body).disjoint(env1.dom()));
    surroundings_in_more(pool, env, env1, cx, cx1, scope, exit);
    assert forall|l: u32| labels(body).contains(l) || labels(join).contains(l) implies !scope.contains(l) by {
        assert(labels(e).contains(l));
    }
    assert(ready(pool, cx1, body, env1, scope, exit));
    let b = dropped(pool, cx1, body, exit);
    let out = join_exit(bind, b);
    let after = b.live.remove(bind.id.0);
    assert forall|n: u32| after.contains(n) implies env.dom().contains(n) by {
        assert(env1.dom().contains(n));
    }
    assert forall|n: u32| binders(join).contains(n) implies !env.dom().contains(n) && n < b.cx.next by {
        assert(binders(e).contains(n));
    }
    assert(binders(join).disjoint(env.dom()));
    assert forall|x: u32| #[trigger] env1.contains_key(x) implies b.cx.ty.contains_key(x) && b.cx.ty[x] == env1[x]
        && x < b.cx.next by {
        assert(!binders(body).contains(x));
        assert(x < cx1.next);
        assert(b.cx.ty.contains_key(x) <==> cx1.ty.contains_key(x));
    }
    assert forall|x: u32| #[trigger] env.contains_key(x) implies b.cx.ty.contains_key(x) && b.cx.ty[x] == env[x] && x < b.cx.next by {
        assert(env1.contains_key(x));
        assert(x != bind.id.0);
    }
    assert forall|l: u32| scope.contains(l) implies b.cx.conts.contains_key(l) && #[trigger] b.cx.conts[l] == cx.conts[l] by {
        assert(!labels(body).contains(l));
        assert(b.cx.conts.contains_key(l) <==> cx1.conts.contains_key(l));
    }
    surroundings_in_more(pool, env, env, cx, b.cx, scope, exit);
    assert(ready(pool, b.cx, join, env, scope, out));
    let j = dropped(pool, b.cx, join, out);
    let d = dropped(pool, cx, e, exit);
    assert(d.cx == j.cx && d.live == j.live);
    assert forall|x: u32| !binders(e).contains(x) && x < cx.next implies (#[trigger] d.cx.ty.contains_key(x) <==> cx.ty.contains_key(x))
        && d.cx.ty[x] == cx.ty[x] by {
        assert(!binders(join).contains(x) && !binders(body).contains(x) && x != bind.id.0);
        assert(j.cx.ty.contains_key(x) <==> b.cx.ty.contains_key(x));
        assert(b.cx.ty.contains_key(x) <==> cx1.ty.contains_key(x));
    }
    assert forall|l: u32| !labels(e).contains(l) implies (#[trigger] d.cx.conts.contains_key(l) <==> cx.conts.contains_key(l))
        && d.cx.conts[l] == cx.conts[l] by {
        assert(!labels(join).contains(l) && !labels(body).contains(l));
        assert(j.cx.conts.contains_key(l) <==> b.cx.conts.contains_key(l));
        assert(b.cx.conts.contains_key(l) <==> cx1.conts.contains_key(l));
    }
    assert(extends(cx, d.cx, binders(e), labels(e)));
    let left = held(pool, env, after);
    let conts = held_conts(pool, env, cx, scope);
    let ex = held_exit(pool, env, exit);
    let owned1 = left.union(brought(pool, bind));
    assert forall|n: u32| may_hold(pool, env1, n) == (if n == bind.id.0 {
        pool.heap(bind.ty)
    } else {
        may_hold(pool, env, n)
    }) by {}
    let body_term = rebuilt_join(pool, bind, j, b).term->LetJoin_body;
    if b.live.contains(bind.id.0) {
        assert(held(pool, env1, b.live) =~= owned1);
    } else {
        let dead = seq![bind.id];
        assert(dead.no_duplicates());
        assert(dead[0] == LocalId(bind.id.0));
        assert forall|n: u32| #[trigger] numbers(dead).contains(n) <==> n == bind.id.0 by {
            if n == bind.id.0 {
                assert(dead[0] == LocalId(n));
            }
        }
        assert(agrees(j.cx, env1)) by {
            assert forall|x: u32| #[trigger] env1.contains_key(x) implies j.cx.ty.contains_key(x) && j.cx.ty[x] == env1[x]
                && x < j.cx.next by {
                assert(!binders(join).contains(x));
                assert(x < b.cx.next);
                assert(j.cx.ty.contains_key(x) <==> b.cx.ty.contains_key(x));
            }
        }
        assert(owned1.difference(held(pool, env1, numbers(dead))) =~= held(pool, env1, b.live));
        wrapped_owns(pool, j.cx, dead, None, b.term, env1, owned1, conts, ex);
    }
    assert(owns(pool, *body_term, env1, owned1, conts, ex));
    assert(owns(pool, j.term, env, held(pool, env, j.live), conts, ExitView::Join { ty: bind.ty, after: left }));
    assert(!left.contains(bind.id.0));
    assert(is_slots(left));
    assert(d.term == (Term::LetJoin { bind, join: Box::new(j.term), body: body_term }));
    assert(owns(pool, d.term, env, held(pool, env, d.live), conts, ex));
}

proof fn cont_is_balanced(pool: ResolvedPool, cx: Cx, e: Term, env: Env, scope: Set<u32>, exit: ExitView)
    requires
        e is LetCont,
        ready(pool, cx, e, env, scope, exit),
        ({
            let c = dropped(pool, cx, *e->cont, exit);
            let cx2 = with_cont(c.cx, e->id, c.live);
            let inner = scope.insert(e->id.0);
            let body = *e->LetCont_body;
            &&& ready(pool, cx, *e->cont, env, scope, exit) ==> done(pool, cx, *e->cont, env, scope, exit)
            &&& ready(pool, cx2, body, env, inner, exit) ==> done(pool, cx2, body, env, inner, exit)
        }),
    ensures
        done(pool, cx, e, env, scope, exit),
{
    let id = e->id;
    let cont = *e->cont;
    let body = *e->LetCont_body;
    assert forall|n: u32| binders(cont).contains(n) || binders(body).contains(n) implies !env.dom().contains(n) && n < cx.next by {
        assert(binders(e).contains(n));
    }
    assert(binders(cont).disjoint(env.dom()));
    assert(binders(body).disjoint(env.dom()));
    assert forall|l: u32| labels(body).contains(l) || labels(cont).contains(l) implies !scope.contains(l) by {
        assert(labels(e).contains(l));
    }
    assert(ready(pool, cx, cont, env, scope, exit));
    let c = dropped(pool, cx, cont, exit);
    let cx2 = with_cont(c.cx, id, c.live);
    let inner = scope.insert(id.0);
    assert forall|x: u32| #[trigger] env.contains_key(x) implies cx2.ty.contains_key(x) && cx2.ty[x] == env[x] && x < cx2.next by {
        assert(!binders(cont).contains(x));
        assert(c.cx.ty.contains_key(x) <==> cx.ty.contains_key(x));
    }
    assert forall|l: u32| scope.contains(l) implies cx2.conts.contains_key(l) && #[trigger] cx2.conts[l] == cx.conts[l] by {
        assert(!labels(cont).contains(l));
        assert(c.cx.conts.contains_key(l) <==> cx.conts.contains_key(l));
    }
    assert forall|l: u32| #[trigger] inner.contains(l) implies cx2.conts.contains_key(l) && cx2.conts[l].subset_of(env.dom()) by {
        if l != id.0 {
            assert(scope.contains(l));
            assert(cx2.conts[l] == cx.conts[l]);
        }
    }
    assert(ready(pool, cx2, body, env, inner, exit));
    let r = dropped(pool, cx2, body, exit);
    let d = dropped(pool, cx, e, exit);
    assert forall|x: u32| !binders(e).contains(x) && x < cx.next implies (#[trigger] d.cx.ty.contains_key(x) <==> cx.ty.contains_key(x))
        && d.cx.ty[x] == cx.ty[x] by {
        assert(!binders(cont).contains(x) && !binders(body).contains(x));
        assert(r.cx.ty.contains_key(x) <==> cx2.ty.contains_key(x));
        assert(c.cx.ty.contains_key(x) <==> cx.ty.contains_key(x));
    }
    assert forall|l: u32| !labels(e).contains(l) implies (#[trigger] d.cx.conts.contains_key(l) <==> cx.conts.contains_key(l))
        && d.cx.conts[l] == cx.conts[l] by {
        assert(!labels(cont).contains(l) && !labels(body).contains(l) && l != id.0);
        assert(r.cx.conts.contains_key(l) <==> cx2.conts.contains_key(l));
        assert(c.cx.conts.contains_key(l) <==> cx.conts.contains_key(l));
    }
    assert(extends(cx, d.cx, binders(e), labels(e)));
    let conts = held_conts(pool, env, cx, scope);
    let ex = held_exit(pool, env, exit);
    let needs = held(pool, env, c.live);
    assert(held_conts(pool, env, cx2, inner) =~= conts.insert(id.0, needs));
    assert(owns(pool, c.term, env, needs, conts, ex));
    assert(owns(pool, r.term, env, held(pool, env, r.live), conts.insert(id.0, needs), ex));
    assert(is_slots(needs));
    assert(d.term == (Term::LetCont { id, cont: Box::new(c.term), body: Box::new(r.term) }));
    assert(owns(pool, d.term, env, held(pool, env, d.live), conts, ex));
}

proof fn tail_is_balanced(pool: ResolvedPool, cx: Cx, e: Term, env: Env, scope: Set<u32>, exit: ExitView)
    requires
        e is Tail,
        ready(pool, cx, e, env, scope, exit),
    ensures
        done(pool, cx, e, env, scope, exit),
{
    let a = e->Tail_0;
    let d = dropped(pool, cx, e, exit);
    let conts = held_conts(pool, env, cx, scope);
    let ex = held_exit(pool, env, exit);
    match exit {
        ExitView::Return => {},
        ExitView::Join { ty, after } => {
            let left = held(pool, env, after);
            let owned = held(pool, env, d.live);
            let gone = a.reads().difference(after);
            let keep = |x: LocalId| cx.heap(pool, x);
            let dead = dying(pool, cx, a, after);
            ascending_facts(gone);
            assert forall|n: u32| #[trigger] numbers(dead).contains(n) <==> gone.contains(n) && may_hold(pool, env, n) by {
                filter_members(ascending(gone), keep, LocalId(n));
                assert(numbers(ascending(gone)).contains(n) <==> gone.contains(n));
                if gone.contains(n) {
                    assert(env.dom().contains(n));
                    assert(env.contains_key(n));
                    assert(cx.heap(pool, LocalId(n)) == may_hold(pool, env, n));
                }
            }
            filter_distinct(ascending(gone), keep);
            assert(d.live =~= a.reads().union(after));
            assert(owned =~= left.union(held(pool, env, gone)));
            if dead.len() == 0 {
                assert forall|n: u32| !held(pool, env, gone).contains(n) by {
                    assert(!numbers(dead).contains(n));
                }
                assert(owned =~= left);
            } else {
                let x0 = dead[0];
                assert(dead.contains(x0) && x0 == LocalId(x0.0));
                assert(numbers(dead).contains(x0.0));
                match a {
                    AtomView::Local(x) => {
                        assert forall|n: u32| #[trigger] a.reads().contains(n) <==> n == x.0 by {
                            assert(a.operands()[0] == x);
                            if n == x.0 {
                                assert(a.operands()[0] == LocalId(n));
                            }
                        }
                        assert(x0.0 == x.0);
                        assert(owned.remove(x.0) =~= left);
                    },
                    AtomView::Move(x) => {},
                    _ => {
                        let bind = cx.fresh(ty);
                        let minted = cx.mint(ty, a.shape());
                        let env1 = with_bind(env, bind);
                        assert(!env.contains_key(bind.id.0)) by {
                            if env.contains_key(bind.id.0) {
                                assert(bind.id.0 < cx.next);
                            }
                        }
                        let owned1 = owned.union(brought(pool, bind));
                        assert(agrees(minted, env1)) by {
                            assert forall|x: u32| #[trigger] env1.contains_key(x) implies minted.ty.contains_key(x)
                                && minted.ty[x] == env1[x] && x < minted.next by {
                                if x != bind.id.0 {
                                    assert(env.contains_key(x));
                                }
                            }
                        }
                        assert forall|i: int| 0 <= i < dead.len() implies env1.contains_key((#[trigger] dead[i]).0)
                            && owned1.contains(dead[i].0) by {
                            assert(dead.contains(dead[i]) && dead[i] == LocalId(dead[i].0));
                            assert(numbers(dead).contains(dead[i].0));
                        }
                        assert forall|n: u32| may_hold(pool, env1, n) == (if n == bind.id.0 {
                            pool.heap(bind.ty)
                        } else {
                            may_hold(pool, env, n)
                        }) by {}
                        let rest = owned1.difference(held(pool, env1, numbers(dead)));
                        assert(rest =~= left.union(brought(pool, bind))) by {
                            assert forall|n: u32| rest.contains(n) <==> left.union(brought(pool, bind)).contains(n) by {
                                assert(numbers(dead).contains(n) <==> gone.contains(n) && may_hold(pool, env, n));
                                if n == bind.id.0 {
                                    assert(!may_hold(pool, env, n));
                                }
                            }
                        }
                        let heap = minted.heap(pool, bind.id);
                        assert(heap == pool.heap(bind.ty));
                        let value = if heap {
                            AtomView::Move(bind.id)
                        } else {
                            AtomView::Local(bind.id)
                        };
                        assert forall|n: u32| #[trigger] value.reads().contains(n) <==> n == bind.id.0 by {
                            assert(value.operands()[0] == bind.id);
                            if n == bind.id.0 {
                                assert(value.operands()[0] == LocalId(n));
                            }
                        }
                        assert(!left.contains(bind.id.0));
                        if heap {
                            assert(rest.remove(bind.id.0) =~= left);
                        } else {
                            assert(rest =~= left);
                        }
                        assert(owns(pool, Term::Tail(value), env1, rest, conts, ex));
                        wrapped_owns(pool, minted, dead, None, Term::Tail(value), env1, owned1, conts, ex);
                        assert(!owned.contains(bind.id.0));
                        assert(held(pool, env, a.reads()).subset_of(owned));
                    },
                }
            }
        },
    }
    assert forall|x: u32| !binders(e).contains(x) && x < cx.next implies (#[trigger] d.cx.ty.contains_key(x) <==> cx.ty.contains_key(x))
        && d.cx.ty[x] == cx.ty[x] by {}
    assert(d.live.subset_of(env.dom()));
}

/// What a filter keeps.
pub proof fn filter_members(q: Seq<LocalId>, keep: spec_fn(LocalId) -> bool, x: LocalId)
    ensures
        q.filter(keep).contains(x) <==> q.contains(x) && keep(x),
    decreases q.len(),
{
    reveal(Seq::filter);
    if q.len() > 0 {
        let p = q.drop_last();
        filter_members(p, keep, x);
        assert(q =~= p.push(q.last()));
        assert(q.contains(x) <==> p.contains(x) || x == q.last()) by {
            if q.contains(x) {
                let i = choose|i: int| 0 <= i < q.len() && q[i] == x;
                if i < p.len() {
                    assert(p[i] == x);
                }
            }
            if p.contains(x) {
                let i = choose|i: int| 0 <= i < p.len() && p[i] == x;
                assert(q[i] == x);
            }
            if x == q.last() {
                assert(q[q.len() - 1] == x);
            }
        }
        let f = p.filter(keep);
        if keep(q.last()) {
            let g = f.push(q.last());
            assert(q.filter(keep) == g);
            assert(g.contains(x) <==> f.contains(x) || x == q.last()) by {
                if g.contains(x) {
                    let i = choose|i: int| 0 <= i < g.len() && g[i] == x;
                    if i < f.len() {
                        assert(f[i] == x);
                    }
                }
                if f.contains(x) {
                    let i = choose|i: int| 0 <= i < f.len() && f[i] == x;
                    assert(g[i] == x);
                }
                if x == q.last() {
                    assert(g[f.len() as int] == x);
                }
            }
        }
    }
}

/// A filter of distinct locals keeps them distinct.
proof fn filter_distinct(q: Seq<LocalId>, keep: spec_fn(LocalId) -> bool)
    requires
        q.no_duplicates(),
    ensures
        q.filter(keep).no_duplicates(),
    decreases q.len(),
{
    reveal(Seq::filter);
    if q.len() > 0 {
        let p = q.drop_last();
        filter_distinct(p, keep);
        filter_members(p, keep, q.last());
        let f = p.filter(keep);
        if keep(q.last()) {
            assert(!p.contains(q.last()));
            let g = f.push(q.last());
            assert forall|i: int, j: int| 0 <= i < g.len() && 0 <= j < g.len() && i != j implies g[i] != g[j] by {
                if i < f.len() {
                    assert(f.contains(f[i]));
                }
                if j < f.len() {
                    assert(f.contains(f[j]));
                }
            }
        }
    }
}

proof fn if_is_balanced(pool: ResolvedPool, cx: Cx, e: Term, env: Env, scope: Set<u32>, exit: ExitView)
    requires
        e is If,
        ready(pool, cx, e, env, scope, exit),
        ({
            let t = dropped(pool, cx, *e->yes, exit);
            &&& ready(pool, cx, *e->yes, env, scope, exit) ==> done(pool, cx, *e->yes, env, scope, exit)
            &&& ready(pool, t.cx, *e->no, env, scope, exit) ==> done(pool, t.cx, *e->no, env, scope, exit)
        }),
    ensures
        done(pool, cx, e, env, scope, exit),
{
    let cond = e->cond;
    let yes = *e->yes;
    let no = *e->no;
    assert forall|n: u32| binders(yes).contains(n) || binders(no).contains(n) implies !env.dom().contains(n) && n < cx.next by {
        assert(binders(e).contains(n));
    }
    assert(binders(yes).disjoint(env.dom()));
    assert(binders(no).disjoint(env.dom()));
    assert forall|l: u32| labels(yes).contains(l) || labels(no).contains(l) implies !scope.contains(l) by {
        assert(labels(e).contains(l));
    }
    assert(ready(pool, cx, yes, env, scope, exit));
    let t = dropped(pool, cx, yes, exit);
    assert forall|x: u32| #[trigger] env.contains_key(x) implies t.cx.ty.contains_key(x) && t.cx.ty[x] == env[x] && x < t.cx.next by {
        assert(!binders(yes).contains(x));
        assert(t.cx.ty.contains_key(x) <==> cx.ty.contains_key(x));
    }
    assert forall|l: u32| scope.contains(l) implies t.cx.conts.contains_key(l) && #[trigger] t.cx.conts[l] == cx.conts[l] by {
        assert(!labels(yes).contains(l));
        assert(t.cx.conts.contains_key(l) <==> cx.conts.contains_key(l));
    }
    surroundings_in_more(pool, env, env, cx, t.cx, scope, exit);
    assert(ready(pool, t.cx, no, env, scope, exit));
    let f = dropped(pool, t.cx, no, exit);
    let d = dropped(pool, cx, e, exit);
    assert forall|x: u32| !binders(e).contains(x) && x < cx.next implies (#[trigger] d.cx.ty.contains_key(x) <==> cx.ty.contains_key(x))
        && d.cx.ty[x] == cx.ty[x] by {
        assert(!binders(yes).contains(x) && !binders(no).contains(x));
        assert(f.cx.ty.contains_key(x) <==> t.cx.ty.contains_key(x));
        assert(t.cx.ty.contains_key(x) <==> cx.ty.contains_key(x));
    }
    assert forall|l: u32| !labels(e).contains(l) implies (#[trigger] d.cx.conts.contains_key(l) <==> cx.conts.contains_key(l))
        && d.cx.conts[l] == cx.conts[l] by {
        assert(!labels(yes).contains(l) && !labels(no).contains(l));
        assert(f.cx.conts.contains_key(l) <==> t.cx.conts.contains_key(l));
        assert(t.cx.conts.contains_key(l) <==> cx.conts.contains_key(l));
    }
    assert(extends(cx, d.cx, binders(e), labels(e)));
    assert forall|x: u32| #[trigger] env.contains_key(x) implies f.cx.ty.contains_key(x) && f.cx.ty[x] == env[x] && x < f.cx.next by {
        assert(!binders(no).contains(x));
        assert(x < t.cx.next);
        assert(f.cx.ty.contains_key(x) <==> t.cx.ty.contains_key(x));
    }
    assert(agrees(f.cx, env));
    let conts = held_conts(pool, env, cx, scope);
    let ex = held_exit(pool, env, exit);
    let owned = held(pool, env, d.live);
    assert(d.live =~= t.live.union(f.live).insert(cond.0));
    assert(d.live.subset_of(env.dom()));
    branch_is_balanced(pool, f.cx, t.live, f.live, cond.0, t.term, env, conts, ex);
    branch_is_balanced(pool, f.cx, f.live, t.live, cond.0, f.term, env, conts, ex);
    assert(f.live.union(t.live).insert(cond.0) =~= d.live);
}

/// A branch that reads `mine`, beside one that reads `other`.
proof fn branch_is_balanced(
    pool: ResolvedPool,
    cx: Cx,
    mine: Set<u32>,
    other: Set<u32>,
    cond: u32,
    term: Term,
    env: Env,
    conts: Map<u32, Set<u32>>,
    exit: ExitView,
)
    requires
        agrees(cx, env),
        mine.subset_of(env.dom()),
        other.subset_of(env.dom()),
        !may_hold(pool, env, cond),
        owns(pool, term, env, held(pool, env, mine), conts, exit),
    ensures
        owns(
            pool,
            wrapped(pool, cx, ascending(other.difference(mine)), None, term),
            env,
            held(pool, env, mine.union(other).insert(cond)),
            conts,
            exit,
        ),
{
    let gone = other.difference(mine);
    let dead = ascending(gone);
    let owned = held(pool, env, mine.union(other).insert(cond));
    ascending_facts(gone);
    assert forall|i: int| 0 <= i < dead.len() implies env.contains_key((#[trigger] dead[i]).0) && (may_hold(pool, env, dead[i].0)
        ==> owned.contains(dead[i].0)) by {
        assert(gone.contains(dead[i].0));
        assert(env.dom().contains(dead[i].0));
    }
    assert(owned.difference(held(pool, env, numbers(dead))) =~= held(pool, env, mine));
    wrapped_owns(pool, cx, dead, None, term, env, owned, conts, exit);
}

/// What matching a pattern records, of types and continuations.
pub proof fn record_pat_facts(cx: Cx, pat: PatView, scrut: LocalId)
    ensures
        cx.record_pat(pat, scrut).ty == cx.record_all(pat.binds()).ty,
        cx.record_pat(pat, scrut).conts == cx.conts,
        cx.record_pat(pat, scrut).next == cx.next,
        cx.record_pat(pat, scrut).ok == cx.ok,
{
    record_all_keeps(cx, pat.binds());
    match pat {
        PatView::Bind(b) => {
            reveal_with_fuel(Cx::record_all, 2);
            assert(pat.binds().drop_last() =~= Seq::empty());
        },
        _ => {},
    }
}

/// What Perceus is given of some arms, and where.
pub open spec fn arms_ready(
    pool: ResolvedPool,
    cx: Cx,
    arms: Seq<(PatView, Term)>,
    env: Env,
    scope: Set<u32>,
    exit: ExitView,
) -> bool {
    &&& lowered_arms(pool, arms, env, scope)
    &&& arms_binders(arms).disjoint(env.dom())
    &&& forall|n: u32| #[trigger] arms_binders(arms).contains(n) ==> n < cx.next
    &&& arms_labels(arms).disjoint(scope)
    &&& agrees(cx, env)
    &&& knows(cx, env, scope)
    &&& exit_in_scope(env, exit)
    &&& 0 <= cx.next
    &&& cx.next + arms_tails(arms) <= u32::MAX
    &&& cx.ok
}

/// What an arm's body reads: from outside the arm, and of its binders.
pub open spec fn arm_reads(arm: Arm) -> Set<u32> {
    arm.live.union(bound_set(arm.pat).difference(numbers(arm.dead_binders)))
}

/// An arm whose body owns what it reads, where `cx` is known.
pub open spec fn arm_done(
    pool: ResolvedPool,
    cx: Cx,
    arm: Arm,
    env: Env,
    conts: Map<u32, Set<u32>>,
    exit: ExitView,
) -> bool {
    let inner = with_binds(env, arm.pat.binds());
    &&& arm.live.subset_of(env.dom())
    &&& arm.live.disjoint(bound_set(arm.pat))
    &&& bound_set(arm.pat).disjoint(env.dom())
    &&& arm.dead_binders.no_duplicates()
    &&& numbers(arm.dead_binders).subset_of(bound_set(arm.pat))
    &&& agrees(cx, inner)
    &&& owns(pool, arm.term, inner, held(pool, inner, arm_reads(arm)), conts, exit)
}

/// What Perceus makes of them.
pub open spec fn arms_done(
    pool: ResolvedPool,
    cx: Cx,
    scrut: LocalId,
    arms: Seq<(PatView, Term)>,
    env: Env,
    scope: Set<u32>,
    exit: ExitView,
) -> bool {
    let d = dropped_arms(pool, cx, scrut, arms, exit);
    &&& d.cx.ok
    &&& d.cx.next <= cx.next + arms_tails(arms)
    &&& d.live.subset_of(env.dom())
    &&& extends(cx, d.cx, arms_binders(arms), arms_labels(arms))
    &&& d.arms.len() == arms.len()
    &&& forall|i: int|
        0 <= i < arms.len() ==> (#[trigger] d.arms[i]).live.subset_of(d.live) && bound_set(d.arms[i].pat).subset_of(arms_binders(arms))
            && arm_done(
            pool,
            d.cx,
            d.arms[i],
            env,
            held_conts(pool, env, cx, scope),
            held_exit(pool, env, exit),
        )
}

/// The last of some arms.
proof fn last_arm_is_balanced(
    pool: ResolvedPool,
    cx: Cx,
    scrut: LocalId,
    arms: Seq<(PatView, Term)>,
    env: Env,
    scope: Set<u32>,
    exit: ExitView,
)
    requires
        arms.len() > 0,
        arms_ready(pool, cx, arms, env, scope, exit),
        arms_done(pool, cx, scrut, arms.drop_last(), env, scope, exit),
        ({
            let before = dropped_arms(pool, cx, scrut, arms.drop_last(), exit);
            let cx1 = before.cx.record_pat(arms.last().0, scrut);
            let env1 = with_binds(env, arms.last().0.binds());
            ready(pool, cx1, arms.last().1, env1, scope, exit) ==> done(pool, cx1, arms.last().1, env1, scope, exit)
        }),
    ensures
        arms_done(pool, cx, scrut, arms, env, scope, exit),
{
    let rest = arms.drop_last();
    let before = dropped_arms(pool, cx, scrut, rest, exit);
    let pat = arms.last().0;
    let body = arms.last().1;
    let cx1 = before.cx.record_pat(pat, scrut);
    let env1 = with_binds(env, pat.binds());
    let all = arms_binders(arms);
    let mine = bound_set(pat);
    assert forall|n: u32| #[trigger] all.contains(n) <==> arms_binders(rest).contains(n) || mine.contains(n) || binders(body).contains(n) by {}
    record_pat_facts(before.cx, pat, scrut);
    with_binds_facts(env, pat.binds(), before.cx);
    assert forall|n: u32| env1.contains_key(n) <==> env.contains_key(n) || mine.contains(n) by {}
    assert forall|n: u32| #[trigger] env.contains_key(n) implies env1.contains_key(n) && env1[n] == env[n] && !all.contains(n) by {
        assert(env.dom().contains(n));
        assert(!mine.contains(n));
    }
    assert forall|x: u32| #[trigger] env1.contains_key(x) implies cx1.ty.contains_key(x) && cx1.ty[x] == env1[x] && x < cx1.next by {
        if mine.contains(x) {
            assert(all.contains(x));
        } else {
            assert(env.contains_key(x));
            assert(!arms_binders(rest).contains(x));
            assert(before.cx.ty.contains_key(x) <==> cx.ty.contains_key(x));
            assert(before.cx.record_all(pat.binds()).ty.contains_key(x));
        }
    }
    assert forall|n: u32| binders(body).contains(n) implies !env1.dom().contains(n) && n < cx1.next by {
        assert(all.contains(n));
        assert(!mine.contains(n));
        if env1.contains_key(n) {
            assert(env.contains_key(n));
        }
    }
    assert(binders(body).disjoint(env1.dom()));
    assert forall|l: u32| labels(body).contains(l) || arms_labels(rest).contains(l) implies !scope.contains(l) by {
        assert(arms_labels(arms).contains(l));
    }
    assert forall|l: u32| scope.contains(l) implies cx1.conts.contains_key(l) && #[trigger] cx1.conts[l] == cx.conts[l] by {
        assert(!arms_labels(rest).contains(l));
        assert(before.cx.conts.contains_key(l) <==> cx.conts.contains_key(l));
    }
    surroundings_in_more(pool, env, env1, cx, cx1, scope, exit);
    assert(ready(pool, cx1, body, env1, scope, exit));
    let b = dropped(pool, cx1, body, exit);
    let d = dropped_arms(pool, cx, scrut, arms, exit);
    let arm = arm_of(pat, b, before.cx.arm_shape(pat, scrut));
    let conts = held_conts(pool, env, cx, scope);
    let ex = held_exit(pool, env, exit);
    assert(d.arms == before.arms.push(arm));
    assert forall|x: u32| !all.contains(x) && x < cx.next implies (#[trigger] d.cx.ty.contains_key(x) <==> cx.ty.contains_key(x))
        && d.cx.ty[x] == cx.ty[x] by {
        assert(!binders(body).contains(x) && !mine.contains(x) && !arms_binders(rest).contains(x));
        assert(b.cx.ty.contains_key(x) <==> cx1.ty.contains_key(x));
        assert(before.cx.record_all(pat.binds()).ty.contains_key(x) <==> before.cx.ty.contains_key(x));
        assert(before.cx.ty.contains_key(x) <==> cx.ty.contains_key(x));
    }
    assert forall|l: u32| !arms_labels(arms).contains(l) implies (#[trigger] d.cx.conts.contains_key(l) <==> cx.conts.contains_key(l))
        && d.cx.conts[l] == cx.conts[l] by {
        assert(!labels(body).contains(l) && !arms_labels(rest).contains(l));
        assert(b.cx.conts.contains_key(l) <==> cx1.conts.contains_key(l));
        assert(before.cx.conts.contains_key(l) <==> cx.conts.contains_key(l));
    }
    assert(extends(cx, d.cx, all, arms_labels(arms)));
    // The last arm.
    let keep = |x: LocalId| !b.live.contains(x.0);
    filter_distinct(bound(pat), keep);
    assert(arm.dead_binders == bound(pat).filter(keep));
    assert forall|n: u32| #[trigger] numbers(arm.dead_binders).contains(n) <==> mine.contains(n) && !b.live.contains(n) by {
        filter_members(bound(pat), keep, LocalId(n));
    }
    assert(arm_reads(arm) =~= b.live);
    assert forall|n: u32| arm.live.contains(n) implies env.dom().contains(n) by {
        assert(env1.dom().contains(n));
        assert(env1.contains_key(n));
    }
    assert(agrees(b.cx, env1)) by {
        assert forall|x: u32| #[trigger] env1.contains_key(x) implies b.cx.ty.contains_key(x) && b.cx.ty[x] == env1[x]
            && x < b.cx.next by {
            assert(!binders(body).contains(x));
            assert(x < cx1.next);
            assert(b.cx.ty.contains_key(x) <==> cx1.ty.contains_key(x));
        }
    }
    assert(arm_done(pool, d.cx, arm, env, conts, ex));
    // The arms before it.
    assert forall|i: int| 0 <= i < arms.len() implies (#[trigger] d.arms[i]).live.subset_of(d.live) && bound_set(d.arms[i].pat).subset_of(all)
        && arm_done(pool, d.cx, d.arms[i], env, conts, ex) by {
        if i < rest.len() {
            let a = before.arms[i];
            assert(d.arms[i] == a);
            let envi = with_binds(env, a.pat.binds());
            with_binds_facts(env, a.pat.binds(), cx);
            assert forall|x: u32| #[trigger] envi.contains_key(x) implies d.cx.ty.contains_key(x) && d.cx.ty[x] == envi[x]
                && x < d.cx.next by {
                assert(before.cx.ty.contains_key(x) && before.cx.ty[x] == envi[x] && x < before.cx.next);
                if bound_set(a.pat).contains(x) {
                    assert(arms_binders(rest).contains(x));
                } else {
                    assert(env.contains_key(x));
                }
                assert(!binders(body).contains(x) && !mine.contains(x));
                assert(before.cx.record_all(pat.binds()).ty.contains_key(x) <==> before.cx.ty.contains_key(x));
                assert(b.cx.ty.contains_key(x) <==> cx1.ty.contains_key(x));
            }
            assert(agrees(d.cx, envi));
        }
    }
}

/// An arm behind what it releases owns what all arms read, the scrutinee and its
/// own binders.
proof fn arm_is_balanced(
    pool: ResolvedPool,
    cx: Cx,
    live: Set<u32>,
    scrut: LocalId,
    arm: Arm,
    env: Env,
    conts: Map<u32, Set<u32>>,
    exit: ExitView,
)
    requires
        env.contains_key(scrut.0),
        live.subset_of(env.dom()),
        arm.live.subset_of(live),
        arm_done(pool, cx, arm, env, conts, exit),
    ensures
        ({
            let inner = with_binds(env, arm.pat.binds());
            owns(
                pool,
                finished_arm(pool, cx, live, scrut, arm).1,
                inner,
                held(pool, env, live.insert(scrut.0)).union(held(pool, inner, bound_set(arm.pat))),
                conts,
                exit,
            )
        }),
{
    let inner = with_binds(env, arm.pat.binds());
    let mine = bound_set(arm.pat);
    with_binds_facts(env, arm.pat.binds(), cx);
    assert forall|n: u32| inner.contains_key(n) <==> env.contains_key(n) || mine.contains(n) by {}
    assert forall|n: u32| #[trigger] env.contains_key(n) implies inner.contains_key(n) && inner[n] == env[n] && !mine.contains(n) by {
        assert(env.dom().contains(n));
    }
    held_in_more(pool, env, inner, live.insert(scrut.0));
    let gone = live.difference(arm.live);
    ascending_facts(gone);
    let first = ascending(gone);
    let second = if !live.contains(scrut.0) {
        seq![scrut]
    } else {
        Seq::<LocalId>::empty()
    };
    let third = arm.dead_binders;
    let dead = arm_drops(live, scrut, arm);
    assert(dead =~= first + second + third);
    let a = first.len() as int;
    let b = second.len() as int;
    assert forall|i: int| 0 <= i < dead.len() implies (i < a ==> gone.contains((#[trigger] dead[i]).0)) && (a <= i < a + b ==> dead[i] == scrut
        && !live.contains(scrut.0)) && (a + b <= i ==> mine.contains(dead[i].0)) by {
        if i < a {
            assert(dead[i] == first[i]);
        } else if i < a + b {
            assert(dead[i] == second[i - a]);
        } else {
            assert(dead[i] == third[i - a - b]);
            assert(third.contains(third[i - a - b]));
            assert(third[i - a - b] == LocalId(dead[i].0));
            assert(numbers(third).contains(dead[i].0));
        }
    }
    assert(dead.no_duplicates()) by {
        assert forall|i: int, j: int| 0 <= i < dead.len() && 0 <= j < dead.len() && i != j implies dead[i] != dead[j] by {
            if i < a && j < a {
                assert(dead[i] == first[i] && dead[j] == first[j]);
            }
            if i >= a + b && j >= a + b {
                assert(dead[i] == third[i - a - b] && dead[j] == third[j - a - b]);
            }
            assert(mine.contains(dead[i].0) ==> !env.dom().contains(dead[i].0));
            assert(mine.contains(dead[j].0) ==> !env.dom().contains(dead[j].0));
        }
    }
    assert forall|n: u32| #[trigger] numbers(dead).contains(n) <==> gone.contains(n) || (n == scrut.0 && !live.contains(n)) || numbers(
        third,
    ).contains(n) by {
        if dead.contains(LocalId(n)) {
            let i = choose|i: int| 0 <= i < dead.len() && dead[i] == LocalId(n);
            if i >= a + b {
                assert(third[i - a - b] == LocalId(n));
            }
        }
        if gone.contains(n) {
            assert(numbers(first).contains(n));
            let i = choose|i: int| 0 <= i < first.len() && first[i] == LocalId(n);
            assert(dead[i] == LocalId(n));
        }
        if n == scrut.0 && !live.contains(n) {
            assert(dead[a] == second[0]);
            assert(dead[a] == LocalId(n));
        }
        if numbers(third).contains(n) {
            let i = choose|i: int| 0 <= i < third.len() && third[i] == LocalId(n);
            assert(dead[a + b + i] == LocalId(n));
        }
    }
    let owned = held(pool, env, live.insert(scrut.0)).union(held(pool, inner, mine));
    assert forall|i: int| 0 <= i < dead.len() implies inner.contains_key((#[trigger] dead[i]).0) && (may_hold(pool, inner, dead[i].0)
        ==> owned.contains(dead[i].0)) by {
        if i < a {
            assert(gone.contains(dead[i].0));
            assert(env.dom().contains(dead[i].0));
            assert(env.contains_key(dead[i].0));
        } else if i < a + b {
            assert(env.contains_key(scrut.0));
        }
    }
    let rest = owned.difference(held(pool, inner, numbers(dead)));
    assert(rest =~= held(pool, inner, arm_reads(arm))) by {
        assert forall|n: u32| rest.contains(n) <==> held(pool, inner, arm_reads(arm)).contains(n) by {
            assert(numbers(dead).contains(n) <==> gone.contains(n) || (n == scrut.0 && !live.contains(n)) || numbers(third).contains(n));
            assert(mine.contains(n) ==> !env.dom().contains(n));
            assert(live.contains(n) ==> env.dom().contains(n));
            assert(numbers(third).contains(n) ==> mine.contains(n));
            assert(env.contains_key(n) ==> may_hold(pool, inner, n) == may_hold(pool, env, n));
        }
    }
    let over = match arm.scrut_shape {
        Some(s) => Some((scrut, s)),
        None => None,
    };
    wrapped_owns(pool, cx, dead, over, arm.term, inner, owned, conts, exit);
}

proof fn match_is_balanced(pool: ResolvedPool, cx: Cx, e: Term, env: Env, scope: Set<u32>, exit: ExitView)
    requires
        e is Match,
        ready(pool, cx, e, env, scope, exit),
        arms_done(pool, cx, e->scrut, e->arms, env, scope, exit),
    ensures
        done(pool, cx, e, env, scope, exit),
{
    let scrut = e->scrut;
    let all = dropped_arms(pool, cx, scrut, e->arms, exit);
    let d = dropped(pool, cx, e, exit);
    let arms = d.term->arms;
    let conts = held_conts(pool, env, cx, scope);
    let ex = held_exit(pool, env, exit);
    let owned = held(pool, env, d.live);
    assert forall|i: int| 0 <= i < arms.len() implies bound_set(arms[i].0).disjoint(env.dom()) && owns(
        pool,
        (#[trigger] arms[i]).1,
        with_binds(env, arms[i].0.binds()),
        owned.union(held(pool, with_binds(env, arms[i].0.binds()), bound_set(arms[i].0))),
        conts,
        ex,
    ) by {
        let a = all.arms[i];
        assert(arms[i] == finished_arm(pool, all.cx, all.live, scrut, a));
        arm_is_balanced(pool, all.cx, all.live, scrut, a, env, conts, ex);
    }
}

/// Perceus's drop pass is balanced: what it makes of a lowered body owns exactly
/// the locals from outside that it reads, and releases each of them, and each
/// reference made inside, once on every path. It meets no unknown continuation
/// and runs out of no numbers.
pub proof fn drop_pass_is_balanced(pool: ResolvedPool, cx: Cx, e: Term, env: Env, scope: Set<u32>, exit: ExitView)
    requires
        ready(pool, cx, e, env, scope, exit),
    ensures
        done(pool, cx, e, env, scope, exit),
    decreases e,
{
    match e {
        Term::Let { bind, rhs, body } => {
            let cx1 = cx.record(bind, rhs.shape());
            let env1 = with_bind(env, bind);
            if ready(pool, cx1, *body, env1, scope, exit) {
                drop_pass_is_balanced(pool, cx1, *body, env1, scope, exit);
            }
            let_is_balanced(pool, cx, e, env, scope, exit);
        },
        Term::LetJoin { bind, join, body } => {
            let cx1 = cx.record(bind, None);
            let env1 = with_bind(env, bind);
            if ready(pool, cx1, *body, env1, scope, exit) {
                drop_pass_is_balanced(pool, cx1, *body, env1, scope, exit);
            }
            let b = dropped(pool, cx1, *body, exit);
            let out = join_exit(bind, b);
            if ready(pool, b.cx, *join, env, scope, out) {
                drop_pass_is_balanced(pool, b.cx, *join, env, scope, out);
            }
            join_is_balanced(pool, cx, e, env, scope, exit);
        },
        Term::LetCont { id, cont, body } => {
            if ready(pool, cx, *cont, env, scope, exit) {
                drop_pass_is_balanced(pool, cx, *cont, env, scope, exit);
            }
            let c = dropped(pool, cx, *cont, exit);
            let cx2 = with_cont(c.cx, id, c.live);
            let inner = scope.insert(id.0);
            if ready(pool, cx2, *body, env, inner, exit) {
                drop_pass_is_balanced(pool, cx2, *body, env, inner, exit);
            }
            cont_is_balanced(pool, cx, e, env, scope, exit);
        },
        Term::Drop { local, shape, body } => {
            assert(ready(pool, cx, *body, env, scope, exit));
            drop_pass_is_balanced(pool, cx, *body, env, scope, exit);
        },
        Term::Tail(a) => {
            tail_is_balanced(pool, cx, e, env, scope, exit);
        },
        Term::Goto(id) => {},
        Term::If { cond, yes, no, ty } => {
            if ready(pool, cx, *yes, env, scope, exit) {
                drop_pass_is_balanced(pool, cx, *yes, env, scope, exit);
            }
            let t = dropped(pool, cx, *yes, exit);
            if ready(pool, t.cx, *no, env, scope, exit) {
                drop_pass_is_balanced(pool, t.cx, *no, env, scope, exit);
            }
            if_is_balanced(pool, cx, e, env, scope, exit);
        },
        Term::Match { scrut, arms, ty } => {
            arms_are_balanced(pool, cx, scrut, arms, env, scope, exit);
            match_is_balanced(pool, cx, e, env, scope, exit);
        },
    }
}

/// So are the arms of a `match`.
pub proof fn arms_are_balanced(
    pool: ResolvedPool,
    cx: Cx,
    scrut: LocalId,
    arms: Seq<(PatView, Term)>,
    env: Env,
    scope: Set<u32>,
    exit: ExitView,
)
    requires
        arms_ready(pool, cx, arms, env, scope, exit),
    ensures
        arms_done(pool, cx, scrut, arms, env, scope, exit),
    decreases arms,
{
    if arms.len() > 0 {
        let rest = arms.drop_last();
        assert forall|n: u32| #[trigger] arms_binders(rest).contains(n) implies n < cx.next && !env.dom().contains(n) by {
            assert(arms_binders(arms).contains(n));
        }
        assert forall|l: u32| #[trigger] arms_labels(rest).contains(l) implies !scope.contains(l) by {
            assert(arms_labels(arms).contains(l));
        }
        assert(arms_ready(pool, cx, rest, env, scope, exit));
        arms_are_balanced(pool, cx, scrut, rest, env, scope, exit);
        let before = dropped_arms(pool, cx, scrut, rest, exit);
        let cx1 = before.cx.record_pat(arms.last().0, scrut);
        let env1 = with_binds(env, arms.last().0.binds());
        if ready(pool, cx1, arms.last().1, env1, scope, exit) {
            drop_pass_is_balanced(pool, cx1, arms.last().1, env1, scope, exit);
        }
        last_arm_is_balanced(pool, cx, scrut, arms, env, scope, exit);
    }
}

/// The reuse walk leaves a balanced body balanced: it only says which cell a
/// constructor overwrites.
pub proof fn pairing_keeps_balance(
    pool: ResolvedPool,
    e: Term,
    avail: Seq<Token>,
    tails: Seq<Seq<Token>>,
    exits: Option<Seq<Seq<Token>>>,
    env: Env,
    owned: Set<u32>,
    conts: Map<u32, Set<u32>>,
    exit: ExitView,
)
    requires
        owns(pool, e, env, owned, conts, exit),
    ensures
        owns(pool, paired(e, avail, tails, exits).term, env, owned, conts, exit),
    decreases e,
{
    match e {
        Term::Drop { local, shape, body } => {
            pairing_keeps_balance(pool, *body, parked(avail, local, shape), tails, exits, env, owned.remove(local.0), conts, exit);
        },
        Term::Let { bind, rhs, body } => {
            let (a, left) = let_take(bind.id, rhs, avail);
            assert(a.operands() == rhs.operands());
            assert(a.reads() =~= rhs.reads());
            let env1 = with_bind(env, bind);
            let owned1 = owned.union(brought(pool, bind));
            pairing_keeps_balance(pool, *body, besides(left, bind.id), tails, exits, env1, owned1, conts, exit);
        },
        Term::LetJoin { bind, join, body } => {
            let after = choose|after: Set<u32>|
                {
                    &&& #[trigger] is_slots(after)
                    &&& after.subset_of(env.dom())
                    &&& owns(pool, *join, env, owned, conts, ExitView::Join { ty: bind.ty, after })
                    &&& !after.contains(bind.id.0)
                    &&& owns(pool, *body, with_bind(env, bind), after.union(brought(pool, bind)), conts, exit)
                };
            let out = ExitView::Join { ty: bind.ty, after };
            let env1 = with_bind(env, bind);
            let owned1 = after.union(brought(pool, bind));
            let inner = paired(*join, avail, tails, Some(Seq::empty()));
            let left = besides(on_all(inner.exits->0), bind.id);
            pairing_keeps_balance(pool, *join, avail, tails, Some(Seq::empty()), env, owned, conts, out);
            pairing_keeps_balance(pool, *body, left, inner.tails, exits, env1, owned1, conts, exit);
            assert(is_slots(after));
        },
        Term::LetCont { id, cont, body } => {
            let needs = choose|needs: Set<u32>|
                {
                    &&& #[trigger] is_slots(needs)
                    &&& needs.subset_of(env.dom())
                    &&& owns(pool, *cont, env, needs, conts, exit)
                    &&& owns(pool, *body, env, owned, conts.insert(id.0, needs), exit)
                };
            let shared = paired(*cont, Seq::empty(), tails, exits);
            let more = conts.insert(id.0, needs);
            pairing_keeps_balance(pool, *cont, Seq::empty(), tails, exits, env, needs, conts, exit);
            pairing_keeps_balance(pool, *body, avail, shared.tails, shared.exits, env, owned, more, exit);
            assert(is_slots(needs));
        },
        Term::If { cond, yes, no, ty } => {
            let t = paired(*yes, avail, tails, exits);
            pairing_keeps_balance(pool, *yes, avail, tails, exits, env, owned, conts, exit);
            pairing_keeps_balance(pool, *no, avail, t.tails, t.exits, env, owned, conts, exit);
        },
        Term::Match { scrut, arms, ty } => {
            pairing_keeps_arms(pool, arms, avail, tails, exits, env, owned, conts, exit);
        },
        Term::Tail(a) => {
            let (b, left) = tail_take(a, avail);
            assert(b.operands() == a.operands());
            assert(b.reads() =~= a.reads());
        },
        Term::Goto(id) => {},
    }
}

/// Each arm of a balanced `match` owns what its pattern leaves it.
pub open spec fn arms_own(
    pool: ResolvedPool,
    arms: Seq<(PatView, Term)>,
    env: Env,
    owned: Set<u32>,
    conts: Map<u32, Set<u32>>,
    exit: ExitView,
) -> bool {
    forall|i: int|
        0 <= i < arms.len() ==> bound_set(arms[i].0).disjoint(env.dom()) && owns(
            pool,
            (#[trigger] arms[i]).1,
            with_binds(env, arms[i].0.binds()),
            owned.union(held(pool, with_binds(env, arms[i].0.binds()), bound_set(arms[i].0))),
            conts,
            exit,
        )
}

proof fn pairing_keeps_arms(
    pool: ResolvedPool,
    arms: Seq<(PatView, Term)>,
    avail: Seq<Token>,
    tails: Seq<Seq<Token>>,
    exits: Option<Seq<Seq<Token>>>,
    env: Env,
    owned: Set<u32>,
    conts: Map<u32, Set<u32>>,
    exit: ExitView,
)
    requires
        arms_own(pool, arms, env, owned, conts, exit),
    ensures
        arms_own(pool, paired_arms(arms, avail, tails, exits).arms, env, owned, conts, exit),
    decreases arms,
{
    if arms.len() > 0 {
        let rest = arms.drop_last();
        let last = arms.last();
        assert(last == arms[arms.len() - 1]);
        assert(arms_own(pool, rest, env, owned, conts, exit)) by {
            assert forall|i: int| 0 <= i < rest.len() implies bound_set(rest[i].0).disjoint(env.dom()) && owns(
                pool,
                (#[trigger] rest[i]).1,
                with_binds(env, rest[i].0.binds()),
                owned.union(held(pool, with_binds(env, rest[i].0.binds()), bound_set(rest[i].0))),
                conts,
                exit,
            ) by {
                assert(rest[i] == arms[i]);
            }
        }
        pairing_keeps_arms(pool, rest, avail, tails, exits, env, owned, conts, exit);
        let before = paired_arms(rest, avail, tails, exits);
        let inner = with_binds(env, last.0.binds());
        pairing_keeps_balance(
            pool,
            last.1,
            avail,
            before.tails,
            before.exits,
            inner,
            owned.union(held(pool, inner, bound_set(last.0))),
            conts,
            exit,
        );
    }
}

/// A binder is among the locals a body numbers.
proof fn binders_are_numbered(e: Term, n: u32)
    ensures
        binders(e).contains(n) ==> n < end_of(e),
    decreases e,
{
    match e {
        Term::Let { bind, rhs, body } => binders_are_numbered(*body, n),
        Term::LetJoin { bind, join, body } => {
            binders_are_numbered(*join, n);
            binders_are_numbered(*body, n);
        },
        Term::LetCont { id, cont, body } => {
            binders_are_numbered(*cont, n);
            binders_are_numbered(*body, n);
        },
        Term::Drop { local, shape, body } => binders_are_numbered(*body, n),
        Term::Tail(a) => {},
        Term::Goto(id) => {},
        Term::If { cond, yes, no, ty } => {
            binders_are_numbered(*yes, n);
            binders_are_numbered(*no, n);
        },
        Term::Match { scrut, arms, ty } => arms_binders_are_numbered(arms, n),
    }
}

proof fn arms_binders_are_numbered(arms: Seq<(PatView, Term)>, n: u32)
    ensures
        arms_binders(arms).contains(n) ==> n < arms_end(arms),
    decreases arms,
{
    if arms.len() > 0 {
        arms_binders_are_numbered(arms.drop_last(), n);
        binders_are_numbered(arms.last().1, n);
        if bound_set(arms.last().0).contains(n) {
            ids_are_numbered(bound(arms.last().0), n);
        }
    }
}

proof fn ids_are_numbered(ids: Seq<LocalId>, n: u32)
    requires
        ids.contains(LocalId(n)),
    ensures
        n < ids_end(ids),
    decreases ids.len(),
{
    let i = choose|i: int| 0 <= i < ids.len() && ids[i] == LocalId(n);
    if i < ids.len() - 1 {
        assert(ids.drop_last()[i] == LocalId(n));
        ids_are_numbered(ids.drop_last(), n);
    }
}

/// The locals in scope on entry to a function.
pub open spec fn fn_env(f: CoreFn) -> Env {
    with_binds(Map::empty(), f.params@)
}

/// `f` is a lowered function, as [`lowered`] says of its body, with distinct
/// parameters and numbers left to mint locals from.
pub open spec fn lowered_fn(pool: ResolvedPool, f: CoreFn) -> bool {
    &&& ids_of(f.params@).no_duplicates()
    &&& binders(f.body.view()).disjoint(fn_env(f).dom())
    &&& lowered(pool, f.body.view(), fn_env(f), Set::empty())
    &&& fn_end(f) + tails(f.body.view()) <= u32::MAX
}

/// The locals of a lowered function are numbered below what Perceus mints.
pub proof fn numbered_below(pool: ResolvedPool, f: CoreFn)
    requires
        lowered_fn(pool, f),
    ensures
        0 <= entry(f).next == fn_end(f),
        forall|n: u32| #[trigger] binders(f.body.view()).contains(n) ==> n < entry(f).next,
        forall|x: u32| #[trigger] fn_env(f).contains_key(x) ==> entry(f).ty.contains_key(x) && entry(f).ty[x] == fn_env(f)[x] && x
            < entry(f).next,
{
    let env = fn_env(f);
    let e = f.body.view();
    let cx = entry(f);
    let params = ids_of(f.params@);
    ids_end_is_natural(params);
    let first = start(fn_end(f) as u32);
    record_all_keeps(first, f.params@);
    with_binds_facts(Map::empty(), f.params@, first);
    assert forall|n: u32| #[trigger] binders(e).contains(n) implies n < cx.next by {
        binders_are_numbered(e, n);
    }
    assert forall|x: u32| #[trigger] env.contains_key(x) implies cx.ty.contains_key(x) && cx.ty[x] == env[x] && x < cx.next by {
        ids_are_numbered(params, x);
        assert(first.record_all(f.params@).ty.contains_key(x));
    }
}

/// A lowered function with its releases owns its parameters on entry.
pub proof fn released_is_balanced(pool: ResolvedPool, f: CoreFn)
    requires
        lowered_fn(pool, f),
    ensures
        fn_end(f) <= u32::MAX,
        dropped_fn(pool, f).cx.ok,
        owns(
            pool,
            released(pool, f),
            fn_env(f),
            held(pool, fn_env(f), fn_env(f).dom()),
            Map::empty(),
            ExitView::Return,
        ),
{
    let env = fn_env(f);
    let e = f.body.view();
    let cx = entry(f);
    let params = ids_of(f.params@);
    let none = Map::<u32, Set<u32>>::empty();
    numbered_below(pool, f);
    record_all_keeps(start(fn_end(f) as u32), f.params@);
    with_binds_facts(Map::empty(), f.params@, start(fn_end(f) as u32));
    assert(ready(pool, cx, e, env, Set::empty(), ExitView::Return));
    drop_pass_is_balanced(pool, cx, e, env, Set::empty(), ExitView::Return);
    let d = dropped_fn(pool, f);
    assert(held_conts(pool, env, cx, Set::empty()) =~= none);
    let keep = |x: LocalId| !d.live.contains(x.0);
    let dead = params.filter(keep);
    filter_distinct(params, keep);
    assert forall|n: u32| #[trigger] numbers(dead).contains(n) <==> env.contains_key(n) && !d.live.contains(n) by {
        filter_members(params, keep, LocalId(n));
    }
    let owned = held(pool, env, env.dom());
    assert(agrees(d.cx, env)) by {
        assert forall|x: u32| #[trigger] env.contains_key(x) implies d.cx.ty.contains_key(x) && d.cx.ty[x] == env[x] && x < d.cx.next by {
            assert(env.dom().contains(x));
            assert(!binders(e).contains(x));
            assert(d.cx.ty.contains_key(x) <==> cx.ty.contains_key(x));
        }
    }
    assert forall|i: int| 0 <= i < dead.len() implies env.contains_key((#[trigger] dead[i]).0) by {
        assert(dead.contains(dead[i]) && dead[i] == LocalId(dead[i].0));
        assert(numbers(dead).contains(dead[i].0));
    }
    assert(owned.difference(held(pool, env, numbers(dead))) =~= held(pool, env, d.live));
    wrapped_owns(pool, d.cx, dead, None, d.term, env, owned, none, ExitView::Return);
}

/// Perceus is balanced: in what it makes of a lowered function, every path releases
/// every reference the frame owns exactly once, none is read after its release,
/// and what the function returns takes the rest with it. Perceus accepts every
/// such function.
pub proof fn perceus_is_balanced(pool: ResolvedPool, f: CoreFn)
    requires
        lowered_fn(pool, f),
    ensures
        fn_end(f) <= u32::MAX,
        dropped_fn(pool, f).cx.ok,
        owns(
            pool,
            reused(released(pool, f)),
            fn_env(f),
            held(pool, fn_env(f), fn_env(f).dom()),
            Map::empty(),
            ExitView::Return,
        ),
{
    let env = fn_env(f);
    let none = Map::<u32, Set<u32>>::empty();
    let owned = held(pool, env, env.dom());
    released_is_balanced(pool, f);
    let body = released(pool, f);
    let once = paired(body, Seq::empty(), Seq::empty(), None);
    pairing_keeps_balance(pool, body, Seq::empty(), Seq::empty(), None, env, owned, none, ExitView::Return);
    match seed(once.tails) {
        Some(avail) => {
            pairing_keeps_balance(pool, once.term, avail, Seq::empty(), None, env, owned, none, ExitView::Return);
        },
        None => {},
    }
}

} // verus!
