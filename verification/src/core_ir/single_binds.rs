//! Releasing locals binds no local twice, so that reuse finds its frame in order.
use vstd::prelude::*;

use crate::core_ir::balance::{
    arms_binders, arms_tails, binders, fn_env, held, lowered, lowered_arms, lowered_fn, numbered_below, released_is_balanced, tails, with_bind,
    with_binds, Env,
};
use crate::core_ir::drops::{
    arm_drops, bound_set, dropped, dropped_arms, dying, finished_arm, ids_of, join_exit, record_all_keeps, with_cont, wrapped, Arm,
    Cx, Dropped, ExitView,
};
use crate::core_ir::extent::fn_end;
use crate::core_ir::frame_reuse::{
    arms_bound_once, bound_once, left_to_next, loops_overwrite_what_they_parked, overwrites_parked,
};
use crate::core_ir::ids::ascending;
use crate::core_ir::perceus::{dropped_fn, entry, released, start};
use crate::core_ir::reuse::reused;
use crate::core_ir::second_walk::{arms_reuse_free, reuse_free};
use crate::core_ir::types::ResolvedPool;
use crate::core_ir::{AtomView, CoreFn, LocalId, PatView, ReuseShape, Term};

verus! {

/// A lowered body binds each local once.
proof fn lowered_binds_once(pool: ResolvedPool, e: Term, env: Env, scope: Set<u32>)
    requires
        lowered(pool, e, env, scope),
    ensures
        bound_once(e),
    decreases e,
{
    match e {
        Term::Let { bind, rhs, body } => {
            lowered_binds_once(pool, *body, with_bind(env, bind), scope);
        },
        Term::LetJoin { bind, join, body } => {
            lowered_binds_once(pool, *join, env, scope);
            lowered_binds_once(pool, *body, with_bind(env, bind), scope);
        },
        Term::LetCont { id, cont, body } => {
            lowered_binds_once(pool, *cont, env, scope);
            lowered_binds_once(pool, *body, env, scope.insert(id.0));
        },
        Term::Drop { local, shape, body } => {
            lowered_binds_once(pool, *body, env, scope);
        },
        Term::Tail(a) => {},
        Term::Goto(id) => {},
        Term::If { cond, yes, no, ty } => {
            lowered_binds_once(pool, *yes, env, scope);
            lowered_binds_once(pool, *no, env, scope);
        },
        Term::Match { scrut, arms, ty } => {
            lowered_arms_bind_once(pool, arms, env, scope);
        },
    }
}

proof fn lowered_arms_bind_once(pool: ResolvedPool, arms: Seq<(PatView, Term)>, env: Env, scope: Set<u32>)
    requires
        lowered_arms(pool, arms, env, scope),
    ensures
        arms_bound_once(arms),
    decreases arms,
{
    if arms.len() > 0 {
        let (pat, body) = arms.last();
        lowered_arms_bind_once(pool, arms.drop_last(), env, scope);
        lowered_binds_once(pool, body, with_binds(env, pat.binds()), scope);
        assert(arms_binders(arms.drop_last()).disjoint(bound_set(pat)));
    }
}

/// Releases bind nothing.
proof fn wrapping_binds_nothing(
    pool: ResolvedPool,
    cx: Cx,
    dead: Seq<LocalId>,
    arm: Option<(LocalId, ReuseShape)>,
    body: Term,
)
    ensures
        binders(wrapped(pool, cx, dead, arm, body)) == binders(body),
        bound_once(wrapped(pool, cx, dead, arm, body)) == bound_once(body),
        reuse_free(wrapped(pool, cx, dead, arm, body)) == reuse_free(body),
    decreases dead.len(),
{
    if dead.len() > 0 {
        wrapping_binds_nothing(pool, cx, dead.drop_first(), arm, body);
    }
}

/// `x` is one of `from`, or was minted between two states.
pub open spec fn old_or_minted(from: Set<u32>, cx: Cx, after: Cx, x: u32) -> bool {
    from.contains(x) || cx.next <= x < after.next
}

/// A body with releases binds each local once, and only what it bound before and what was
/// minted for it.
pub open spec fn stays_single(e: Term, cx: Cx, d: Dropped) -> bool {
    &&& bound_once(d.term)
    &&& reuse_free(d.term)
    &&& cx.next <= d.cx.next <= cx.next + tails(e)
    &&& forall|x: u32| #[trigger] binders(d.term).contains(x) ==> old_or_minted(binders(e), cx, d.cx, x)
}

/// A body that binds each local once, numbered below what is minted next, with numbers left.
pub open spec fn single(e: Term, cx: Cx) -> bool {
    &&& bound_once(e)
    &&& reuse_free(e)
    &&& forall|x: u32| #[trigger] binders(e).contains(x) ==> x < cx.next
    &&& 0 <= cx.next
    &&& cx.next + tails(e) <= u32::MAX
}

proof fn dropping_binds_once(pool: ResolvedPool, cx: Cx, e: Term, exit: ExitView)
    requires
        single(e, cx),
    ensures
        stays_single(e, cx, dropped(pool, cx, e, exit)),
    decreases e,
{
    let d = dropped(pool, cx, e, exit);
    match e {
        Term::Let { bind, rhs, body } => {
            let cx1 = cx.record(bind, rhs.shape());
            assert forall|x: u32| #[trigger] binders(*body).contains(x) implies x < cx1.next by {
                assert(binders(e).contains(x));
            }
            dropping_binds_once(pool, cx1, *body, exit);
            let b = dropped(pool, cx1, *body, exit);
            let wrap = *d.term->Let_body;
            let dead = ascending(rhs.reads().difference(b.live)) + (if !b.live.contains(bind.id.0) {
                seq![bind.id]
            } else {
                Seq::empty()
            });
            wrapping_binds_nothing(pool, b.cx, dead, None, b.term);
            assert(wrap == wrapped(pool, b.cx, dead, None, b.term));
            assert(binders(e).contains(bind.id.0));
            assert(!binders(b.term).contains(bind.id.0)) by {
                if binders(b.term).contains(bind.id.0) {
                    assert(old_or_minted(binders(*body), cx1, b.cx, bind.id.0));
                }
            }
            assert forall|x: u32| #[trigger] binders(d.term).contains(x) implies old_or_minted(binders(e), cx, d.cx, x) by {
                if x != bind.id.0 {
                    assert(binders(b.term).contains(x));
                    assert(old_or_minted(binders(*body), cx1, b.cx, x));
                }
            }
        },
        Term::LetJoin { bind, join, body } => {
            let cx1 = cx.record(bind, None);
            assert forall|x: u32| #[trigger] binders(*body).contains(x) implies x < cx1.next by {
                assert(binders(e).contains(x));
            }
            dropping_binds_once(pool, cx1, *body, exit);
            let after = dropped(pool, cx1, *body, exit);
            assert forall|x: u32| #[trigger] binders(*join).contains(x) implies x < cx.next by {
                assert(binders(e).contains(x));
            }
            let out = join_exit(bind, after);
            dropping_binds_once(pool, after.cx, *join, out);
            let j = dropped(pool, after.cx, *join, out);
            wrapping_binds_nothing(pool, j.cx, seq![bind.id], None, after.term);
            assert(binders(*d.term->LetJoin_body) == binders(after.term));
            assert(binders(e).contains(bind.id.0));
            if binders(after.term).contains(bind.id.0) {
                assert(old_or_minted(binders(*body), cx1, after.cx, bind.id.0));
            }
            if binders(j.term).contains(bind.id.0) {
                assert(old_or_minted(binders(*join), after.cx, j.cx, bind.id.0));
            }
            apart(*join, j, after.cx, *body, after, cx1, cx);
            assert forall|x: u32| #[trigger] binders(d.term).contains(x) implies old_or_minted(binders(e), cx, d.cx, x) by {
                if x != bind.id.0 {
                    if binders(j.term).contains(x) {
                        assert(old_or_minted(binders(*join), after.cx, j.cx, x));
                    } else {
                        assert(binders(after.term).contains(x));
                        assert(old_or_minted(binders(*body), cx1, after.cx, x));
                    }
                }
            }
        },
        Term::LetCont { id, cont, body } => {
            assert forall|x: u32| #[trigger] binders(*cont).contains(x) implies x < cx.next by {
                assert(binders(e).contains(x));
            }
            dropping_binds_once(pool, cx, *cont, exit);
            let shared = dropped(pool, cx, *cont, exit);
            let cx1 = with_cont(shared.cx, id, shared.live);
            assert forall|x: u32| #[trigger] binders(*body).contains(x) implies x < cx.next by {
                assert(binders(e).contains(x));
            }
            dropping_binds_once(pool, cx1, *body, exit);
            let rest = dropped(pool, cx1, *body, exit);
            apart(*body, rest, cx1, *cont, shared, cx, cx);
            assert forall|x: u32| #[trigger] binders(d.term).contains(x) implies old_or_minted(binders(e), cx, d.cx, x) by {
                if binders(shared.term).contains(x) {
                    assert(old_or_minted(binders(*cont), cx, shared.cx, x));
                } else {
                    assert(binders(rest.term).contains(x));
                    assert(old_or_minted(binders(*body), cx1, rest.cx, x));
                }
            }
        },
        Term::Drop { local, shape, body } => {
            assert(binders(e) == binders(*body));
            dropping_binds_once(pool, cx, *body, exit);
        },
        Term::Tail(a) => {
            match exit {
                ExitView::Return => {},
                ExitView::Join { ty, after } => {
                    let dead = dying(pool, cx, a, after);
                    let bind = cx.fresh(ty);
                    let minted = cx.mint(ty, a.shape());
                    let value = if minted.heap(pool, bind.id) {
                        AtomView::Move(bind.id)
                    } else {
                        AtomView::Local(bind.id)
                    };
                    wrapping_binds_nothing(pool, minted, dead, None, Term::Tail(value));
                },
            }
        },
        Term::Goto(id) => {},
        Term::If { cond, yes, no, ty } => {
            assert forall|x: u32| #[trigger] binders(*yes).contains(x) implies x < cx.next by {
                assert(binders(e).contains(x));
            }
            dropping_binds_once(pool, cx, *yes, exit);
            let t = dropped(pool, cx, *yes, exit);
            assert forall|x: u32| #[trigger] binders(*no).contains(x) implies x < cx.next by {
                assert(binders(e).contains(x));
            }
            dropping_binds_once(pool, t.cx, *no, exit);
            let f = dropped(pool, t.cx, *no, exit);
            wrapping_binds_nothing(pool, f.cx, ascending(f.live.difference(t.live)), None, t.term);
            wrapping_binds_nothing(pool, f.cx, ascending(t.live.difference(f.live)), None, f.term);
            apart(*no, f, t.cx, *yes, t, cx, cx);
            assert forall|x: u32| #[trigger] binders(d.term).contains(x) implies old_or_minted(binders(e), cx, d.cx, x) by {
                if binders(t.term).contains(x) {
                    assert(old_or_minted(binders(*yes), cx, t.cx, x));
                } else {
                    assert(binders(f.term).contains(x));
                    assert(old_or_minted(binders(*no), t.cx, f.cx, x));
                }
            }
        },
        Term::Match { scrut, arms, ty } => {
            let all = dropped_arms(pool, cx, scrut, arms, exit);
            assert(binders(e) == arms_binders(arms));
            dropping_arms_binds_once(pool, cx, scrut, arms, exit, all.cx, all.live);
            let out = finished(pool, scrut, all.arms, all.cx, all.live);
            assert(d.term->arms =~= out);
            assert(d.term == Term::Match { scrut, arms: out, ty });
            assert(binders(d.term) == arms_binders(out));
            assert(tails(e) == arms_tails(arms));
        },
    }
}

/// Two bodies that share no local share none after, where the second was transformed first.
proof fn apart(e: Term, d: Dropped, from: Cx, other: Term, done: Dropped, start: Cx, cx: Cx)
    requires
        stays_single(e, from, d),
        stays_single(other, start, done),
        start.next == cx.next,
        done.cx.next == from.next,
        binders(e).disjoint(binders(other)),
        forall|x: u32| #[trigger] binders(e).contains(x) ==> x < cx.next,
        forall|x: u32| #[trigger] binders(other).contains(x) ==> x < cx.next,
    ensures
        binders(d.term).disjoint(binders(done.term)),
{
    assert forall|x: u32| binders(d.term).contains(x) implies !binders(done.term).contains(x) by {
        assert(old_or_minted(binders(e), from, d.cx, x));
        if binders(done.term).contains(x) {
            assert(old_or_minted(binders(other), start, done.cx, x));
        }
    }
}

/// The arms that some make, with what is known and read in the end.
pub open spec fn finished(pool: ResolvedPool, scrut: LocalId, arms: Seq<Arm>, cx: Cx, live: Set<u32>) -> Seq<(PatView, Term)> {
    arms.map_values(|a: Arm| finished_arm(pool, cx, live, scrut, a))
}

proof fn dropping_arms_binds_once(
    pool: ResolvedPool,
    cx: Cx,
    scrut: LocalId,
    arms: Seq<(PatView, Term)>,
    exit: ExitView,
    end: Cx,
    live: Set<u32>,
)
    requires
        arms_bound_once(arms),
        arms_reuse_free(arms),
        forall|x: u32| #[trigger] arms_binders(arms).contains(x) ==> x < cx.next,
        0 <= cx.next,
        cx.next + arms_tails(arms) <= u32::MAX,
    ensures
        ({
            let all = dropped_arms(pool, cx, scrut, arms, exit);
            let out = finished(pool, scrut, all.arms, end, live);
            &&& arms_bound_once(out)
            &&& arms_reuse_free(out)
            &&& cx.next <= all.cx.next <= cx.next + arms_tails(arms)
            &&& forall|x: u32| #[trigger] arms_binders(out).contains(x) ==> old_or_minted(arms_binders(arms), cx, all.cx, x)
        }),
    decreases arms,
{
    let all = dropped_arms(pool, cx, scrut, arms, exit);
    let out = finished(pool, scrut, all.arms, end, live);
    if arms.len() > 0 {
        let rest = arms.drop_last();
        let (pat, body) = arms.last();
        assert forall|x: u32| #[trigger] arms_binders(rest).contains(x) implies x < cx.next by {
            assert(arms_binders(arms).contains(x));
        }
        dropping_arms_binds_once(pool, cx, scrut, rest, exit, end, live);
        let before = dropped_arms(pool, cx, scrut, rest, exit);
        let cx1 = before.cx.record_pat(pat, scrut);
        record_all_keeps(before.cx, pat.binds());
        assert(cx1.next == before.cx.next);
        assert forall|x: u32| #[trigger] binders(body).contains(x) implies x < cx1.next by {
            assert(arms_binders(arms).contains(x));
        }
        dropping_binds_once(pool, cx1, body, exit);
        let d = dropped(pool, cx1, body, exit);
        let arm = all.arms.last();
        let last = finished_arm(pool, end, live, scrut, arm);
        let over = match arm.scrut_shape {
            Some(s) => Some((scrut, s)),
            None => None,
        };
        wrapping_binds_nothing(pool, end, arm_drops(live, scrut, arm), over, arm.term);
        assert(all.arms.drop_last() =~= before.arms);
        assert(out.drop_last() =~= finished(pool, scrut, before.arms, end, live));
        assert(out.last() == last);
        assert(last.0 == pat);
        assert(binders(last.1) == binders(d.term));
        assert forall|x: u32| bound_set(pat).contains(x) implies !binders(d.term).contains(x) && x < cx.next by {
            assert(arms_binders(arms).contains(x));
            if binders(d.term).contains(x) {
                assert(old_or_minted(binders(body), cx1, d.cx, x));
            }
        }
        let first = out.drop_last();
        assert forall|x: u32| arms_binders(first).contains(x) implies !bound_set(pat).contains(x) && !binders(d.term).contains(x) by {
            assert(old_or_minted(arms_binders(rest), cx, before.cx, x));
            if arms_binders(rest).contains(x) {
                assert(arms_binders(arms).contains(x));
            }
            if binders(d.term).contains(x) {
                assert(old_or_minted(binders(body), cx1, d.cx, x));
                if binders(body).contains(x) {
                    assert(arms_binders(arms).contains(x));
                }
            }
        }
        assert forall|x: u32| #[trigger] arms_binders(out).contains(x) implies old_or_minted(arms_binders(arms), cx, all.cx, x) by {
            if arms_binders(first).contains(x) {
                assert(old_or_minted(arms_binders(rest), cx, before.cx, x));
            } else if binders(d.term).contains(x) {
                assert(old_or_minted(binders(body), cx1, d.cx, x));
            } else {
                assert(bound_set(pat).contains(x));
            }
        }
        assert(bound_set(pat).disjoint(binders(d.term)));
        assert(arms_binders(first).disjoint(bound_set(pat)));
        assert(arms_binders(first).disjoint(binders(d.term)));
    } else {
        assert(out =~= Seq::empty());
    }
}

/// Perceus's reuse is limited to the frame: in what it makes of a lowered function, a
/// constructor overwrites a cell only where one of its own size is parked on every path, in
/// this turn of a loop or in the one before, whose cells each self tail call leaves parked.
/// The first time in, nothing is in the slots of those.
pub proof fn perceus_overwrites_what_it_parked(pool: ResolvedPool, f: CoreFn)
    requires
        lowered_fn(pool, f),
        reuse_free(f.body.view()),
    ensures
        ({
            let left = left_to_next(released(pool, f), fn_env(f));
            &&& overwrites_parked(reused(released(pool, f)), left, Seq::empty(), left)
            &&& forall|x: (u32, usize)| #[trigger] left.contains(x) ==> !fn_env(f).contains_key(x.0)
        }),
{
    let env = fn_env(f);
    let e = f.body.view();
    let cx = entry(f);
    released_is_balanced(pool, f);
    numbered_below(pool, f);
    lowered_binds_once(pool, e, env, Set::empty());
    record_all_keeps(start(fn_end(f) as u32), f.params@);
    dropping_binds_once(pool, cx, e, ExitView::Return);
    let d = dropped_fn(pool, f);
    let dead = ids_of(f.params@).filter(|x: LocalId| !d.live.contains(x.0));
    wrapping_binds_nothing(pool, d.cx, dead, None, d.term);
    let body = released(pool, f);
    assert(binders(body).disjoint(env.dom())) by {
        assert forall|x: u32| binders(body).contains(x) implies !env.dom().contains(x) by {
            assert(old_or_minted(binders(e), cx, d.cx, x));
            if env.contains_key(x) {
                assert(x < cx.next);
            }
        }
    }
    loops_overwrite_what_they_parked(pool, body, env, held(pool, env, env.dom()));
}

} // verus!
