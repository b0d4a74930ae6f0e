//! The drop pass run on its own output.
//!
//! The pass takes no notice of the releases that a body has: it derives them anew. So it can be
//! run again on what it made.
use vstd::prelude::*;

use crate::core_ir::drops::{
    arm_drops, dropped, dropped_arms, finished_arm, join_exit, with_cont, wrapped, Arm, Cx, ExitView,
};
use crate::core_ir::ids::ascending;
use crate::core_ir::types::ResolvedPool;
use crate::core_ir::{LocalId, PatView, ReuseShape, Term};

verus! {

/// `e` without its releases.
pub open spec fn stripped(e: Term) -> Term
    decreases e,
{
    match e {
        Term::Let { bind, rhs, body } => Term::Let { bind, rhs, body: Box::new(stripped(*body)) },
        Term::LetJoin { bind, join, body } => Term::LetJoin {
            bind,
            join: Box::new(stripped(*join)),
            body: Box::new(stripped(*body)),
        },
        Term::LetCont { id, cont, body } => Term::LetCont {
            id,
            cont: Box::new(stripped(*cont)),
            body: Box::new(stripped(*body)),
        },
        Term::Drop { local, shape, body } => stripped(*body),
        Term::Tail(a) => e,
        Term::Goto(id) => e,
        Term::If { cond, yes, no, ty } => Term::If {
            cond,
            yes: Box::new(stripped(*yes)),
            no: Box::new(stripped(*no)),
            ty,
        },
        Term::Match { scrut, arms, ty } => Term::Match { scrut, arms: stripped_arms(arms), ty },
    }
}

/// Some arms without their releases.
pub open spec fn stripped_arms(arms: Seq<(PatView, Term)>) -> Seq<(PatView, Term)>
    decreases arms,
{
    if arms.len() == 0 {
        arms
    } else {
        stripped_arms(arms.drop_last()).push((arms.last().0, stripped(arms.last().1)))
    }
}

/// No value of `e` goes into a join.
pub open spec fn join_free(e: Term) -> bool
    decreases e,
{
    match e {
        Term::Let { bind, rhs, body } => join_free(*body),
        Term::LetJoin { bind, join, body } => false,
        Term::LetCont { id, cont, body } => join_free(*cont) && join_free(*body),
        Term::Drop { local, shape, body } => join_free(*body),
        Term::Tail(a) => true,
        Term::Goto(id) => true,
        Term::If { cond, yes, no, ty } => join_free(*yes) && join_free(*no),
        Term::Match { scrut, arms, ty } => arms_join_free(arms),
    }
}

/// No value of some arms goes into a join.
pub open spec fn arms_join_free(arms: Seq<(PatView, Term)>) -> bool
    decreases arms,
{
    arms.len() == 0 || arms_join_free(arms.drop_last()) && join_free(arms.last().1)
}

/// Arms are stripped one by one.
proof fn each_arm_is_stripped(arms: Seq<(PatView, Term)>)
    ensures
        stripped_arms(arms).len() == arms.len(),
        forall|i: int|
            0 <= i < arms.len() ==> #[trigger] stripped_arms(arms)[i] == (arms[i].0, stripped(arms[i].1)),
    decreases arms.len(),
{
    if arms.len() > 0 {
        let rest = arms.drop_last();
        each_arm_is_stripped(rest);
        assert forall|i: int| 0 <= i < arms.len() implies #[trigger] stripped_arms(arms)[i] == (
            arms[i].0,
            stripped(arms[i].1),
        ) by {
            if i < rest.len() {
                assert(stripped_arms(arms)[i] == stripped_arms(rest)[i]);
            }
        }
    }
}

/// Releases before a body are not part of it.
proof fn wrapping_strips_off(
    pool: ResolvedPool,
    cx: Cx,
    dead: Seq<LocalId>,
    arm: Option<(LocalId, ReuseShape)>,
    body: Term,
)
    ensures
        stripped(wrapped(pool, cx, dead, arm, body)) == stripped(body),
    decreases dead.len(),
{
    if dead.len() > 0 {
        wrapping_strips_off(pool, cx, dead.drop_first(), arm, body);
    }
}

/// The drop pass takes no notice of the releases that a body has.
pub proof fn releases_are_ignored(pool: ResolvedPool, cx: Cx, e: Term, exit: ExitView)
    ensures
        dropped(pool, cx, stripped(e), exit) == dropped(pool, cx, e, exit),
    decreases e,
{
    match e {
        Term::Let { bind, rhs, body } => {
            releases_are_ignored(pool, cx.record(bind, rhs.shape()), *body, exit);
        },
        Term::LetJoin { bind, join, body } => {
            let after = dropped(pool, cx.record(bind, None), *body, exit);
            releases_are_ignored(pool, cx.record(bind, None), *body, exit);
            releases_are_ignored(pool, after.cx, *join, join_exit(bind, after));
        },
        Term::LetCont { id, cont, body } => {
            let shared = dropped(pool, cx, *cont, exit);
            releases_are_ignored(pool, cx, *cont, exit);
            releases_are_ignored(pool, with_cont(shared.cx, id, shared.live), *body, exit);
        },
        Term::Drop { local, shape, body } => {
            releases_are_ignored(pool, cx, *body, exit);
        },
        Term::Tail(a) => {},
        Term::Goto(id) => {},
        Term::If { cond, yes, no, ty } => {
            releases_are_ignored(pool, cx, *yes, exit);
            releases_are_ignored(pool, dropped(pool, cx, *yes, exit).cx, *no, exit);
        },
        Term::Match { scrut, arms, ty } => {
            releases_in_arms_are_ignored(pool, cx, scrut, arms, exit);
        },
    }
}

proof fn releases_in_arms_are_ignored(
    pool: ResolvedPool,
    cx: Cx,
    scrut: LocalId,
    arms: Seq<(PatView, Term)>,
    exit: ExitView,
)
    ensures
        dropped_arms(pool, cx, scrut, stripped_arms(arms), exit) == dropped_arms(pool, cx, scrut, arms, exit),
    decreases arms,
{
    if arms.len() > 0 {
        let rest = arms.drop_last();
        releases_in_arms_are_ignored(pool, cx, scrut, rest, exit);
        let before = dropped_arms(pool, cx, scrut, rest, exit);
        releases_are_ignored(pool, before.cx.record_pat(arms.last().0, scrut), arms.last().1, exit);
        assert(stripped_arms(arms).drop_last() =~= stripped_arms(rest));
        assert(stripped_arms(arms).last() == (arms.last().0, stripped(arms.last().1)));
    }
}

/// Only releases differ: where no value goes into a join, what the drop pass makes of a body has
/// every other node of it, in the same order, and none besides.
pub proof fn only_releases_differ(pool: ResolvedPool, cx: Cx, e: Term)
    requires
        join_free(e),
    ensures
        stripped(dropped(pool, cx, e, ExitView::Return).term) == stripped(e),
    decreases e,
{
    let exit = ExitView::Return;
    match e {
        Term::Let { bind, rhs, body } => {
            let cx1 = cx.record(bind, rhs.shape());
            only_releases_differ(pool, cx1, *body);
            let b = dropped(pool, cx1, *body, exit);
            let dead = ascending(rhs.reads().difference(b.live)) + (if !b.live.contains(bind.id.0) {
                seq![bind.id]
            } else {
                Seq::empty()
            });
            wrapping_strips_off(pool, b.cx, dead, None, b.term);
        },
        Term::LetJoin { bind, join, body } => {},
        Term::LetCont { id, cont, body } => {
            let shared = dropped(pool, cx, *cont, exit);
            only_releases_differ(pool, cx, *cont);
            only_releases_differ(pool, with_cont(shared.cx, id, shared.live), *body);
        },
        Term::Drop { local, shape, body } => {
            only_releases_differ(pool, cx, *body);
        },
        Term::Tail(a) => {},
        Term::Goto(id) => {},
        Term::If { cond, yes, no, ty } => {
            let t = dropped(pool, cx, *yes, exit);
            let f = dropped(pool, t.cx, *no, exit);
            only_releases_differ(pool, cx, *yes);
            only_releases_differ(pool, t.cx, *no);
            wrapping_strips_off(pool, f.cx, ascending(f.live.difference(t.live)), None, t.term);
            wrapping_strips_off(pool, f.cx, ascending(t.live.difference(f.live)), None, f.term);
        },
        Term::Match { scrut, arms, ty } => {
            let all = dropped_arms(pool, cx, scrut, arms, exit);
            only_releases_differ_in_arms(pool, cx, scrut, arms);
            let out = all.arms.map_values(|a: Arm| finished_arm(pool, all.cx, all.live, scrut, a));
            each_arm_is_stripped(arms);
            each_arm_is_stripped(out);
            assert forall|i: int| 0 <= i < out.len() implies stripped_arms(out)[i] == stripped_arms(arms)[i] by {
                let a = all.arms[i];
                let over = match a.scrut_shape {
                    Some(s) => Some((scrut, s)),
                    None => None,
                };
                assert(out[i] == finished_arm(pool, all.cx, all.live, scrut, a));
                wrapping_strips_off(pool, all.cx, arm_drops(all.live, scrut, a), over, a.term);
            }
            assert(stripped_arms(out) =~= stripped_arms(arms));
        },
    }
}

proof fn only_releases_differ_in_arms(pool: ResolvedPool, cx: Cx, scrut: LocalId, arms: Seq<(PatView, Term)>)
    requires
        arms_join_free(arms),
    ensures
        dropped_arms(pool, cx, scrut, arms, ExitView::Return).arms.len() == arms.len(),
        forall|i: int|
            0 <= i < arms.len() ==> {
                let a = #[trigger] dropped_arms(pool, cx, scrut, arms, ExitView::Return).arms[i];
                a.pat == arms[i].0 && stripped(a.term) == stripped(arms[i].1)
            },
    decreases arms,
{
    if arms.len() > 0 {
        let rest = arms.drop_last();
        only_releases_differ_in_arms(pool, cx, scrut, rest);
        let before = dropped_arms(pool, cx, scrut, rest, ExitView::Return);
        only_releases_differ(pool, before.cx.record_pat(arms.last().0, scrut), arms.last().1);
        let all = dropped_arms(pool, cx, scrut, arms, ExitView::Return);
        assert forall|i: int| 0 <= i < arms.len() implies {
            let a = #[trigger] all.arms[i];
            a.pat == arms[i].0 && stripped(a.term) == stripped(arms[i].1)
        } by {
            if i < rest.len() {
                assert(all.arms[i] == before.arms[i]);
            }
        }
    }
}

/// The drop pass can be run again: where no value goes into a join, run on its own output from
/// what was known the first time, it gives that output, what it reads, and what is known after
/// it, all as before.
pub proof fn rerunning_changes_nothing(pool: ResolvedPool, cx: Cx, e: Term)
    requires
        join_free(e),
    ensures
        dropped(pool, cx, dropped(pool, cx, e, ExitView::Return).term, ExitView::Return) == dropped(
            pool,
            cx,
            e,
            ExitView::Return,
        ),
{
    let d = dropped(pool, cx, e, ExitView::Return);
    only_releases_differ(pool, cx, e);
    releases_are_ignored(pool, cx, d.term, ExitView::Return);
    releases_are_ignored(pool, cx, e, ExitView::Return);
}

} // verus!
