//! The locals a module toplevel pins to globals.
use std::collections::BTreeSet;

use vstd::prelude::*;

use crate::core_ir::nodes::{
    bare, every_global_is_pinned, gives_up, globals_outlive_the_toplevel, pins_to_global, some_node,
    sparing_computes_the_same,
};
use crate::core_ir::perceus::{arm_is_smaller, arm_views, arms_size, is_end, size};
use crate::core_ir::reuse::{put_all_back, WalkedFrame};
use crate::core_ir::{Atom, AtomView, CoreBind, CoreExpr, CoreFn, CorePat, PatView, Term};

verus! {

broadcast use {vstd::std_specs::btree::group_btree_axioms, vstd::laws_cmp::group_laws_cmp};

/// The locals that `b` pins: itself, if it is pinned to a global.
pub open spec fn pin(b: CoreBind) -> Set<u32> {
    if b.global is Some {
        set![b.id.0]
    } else {
        Set::empty()
    }
}

/// The locals that the `Let`s and `LetJoin`s of `e` pin to globals.
pub open spec fn pins(e: Term) -> Set<u32>
    decreases e,
{
    match e {
        Term::Let { bind, rhs, body } => pin(bind).union(pins(*body)),
        Term::LetJoin { bind, join, body } => pin(bind).union(pins(*join)).union(pins(*body)),
        Term::LetCont { id, cont, body } => pins(*cont).union(pins(*body)),
        Term::Drop { local, shape, body } => pins(*body),
        Term::Tail(a) => Set::empty(),
        Term::Goto(id) => Set::empty(),
        Term::If { cond, yes, no, ty } => pins(*yes).union(pins(*no)),
        Term::Match { scrut, arms, ty } => arms_pins(arms),
    }
}

/// The locals that some arms pin.
pub open spec fn arms_pins(arms: Seq<(PatView, Term)>) -> Set<u32>
    decreases arms,
{
    if arms.len() == 0 {
        Set::empty()
    } else {
        arms_pins(arms.drop_last()).union(pins(arms.last().1))
    }
}

/// `a` without the release or the overwriting of a pinned local: a move becomes a
/// read that shares.
pub open spec fn spared_atom(a: AtomView, pinned: Set<u32>) -> AtomView {
    match a {
        AtomView::Ctor { variant, fields, reuse } => AtomView::Ctor {
            variant,
            fields,
            reuse: match reuse {
                Some(r) => if pinned.contains(r.0) {
                    None
                } else {
                    reuse
                },
                None => None,
            },
        },
        AtomView::Move(x) => if pinned.contains(x.0) {
            AtomView::Local(x)
        } else {
            a
        },
        _ => a,
    }
}

/// `e` without what releases or overwrites a pinned local.
pub open spec fn spared(e: Term, pinned: Set<u32>) -> Term
    decreases e,
{
    match e {
        Term::Let { bind, rhs, body } => Term::Let {
            bind,
            rhs: spared_atom(rhs, pinned),
            body: Box::new(spared(*body, pinned)),
        },
        Term::LetJoin { bind, join, body } => Term::LetJoin {
            bind,
            join: Box::new(spared(*join, pinned)),
            body: Box::new(spared(*body, pinned)),
        },
        Term::LetCont { id, cont, body } => Term::LetCont {
            id,
            cont: Box::new(spared(*cont, pinned)),
            body: Box::new(spared(*body, pinned)),
        },
        Term::Drop { local, shape, body } => if pinned.contains(local.0) {
            spared(*body, pinned)
        } else {
            Term::Drop { local, shape, body: Box::new(spared(*body, pinned)) }
        },
        Term::Tail(a) => Term::Tail(spared_atom(a, pinned)),
        Term::Goto(id) => Term::Goto(id),
        Term::If { cond, yes, no, ty } => Term::If {
            cond,
            yes: Box::new(spared(*yes, pinned)),
            no: Box::new(spared(*no, pinned)),
            ty,
        },
        Term::Match { scrut, arms, ty } => Term::Match { scrut, arms: spared_arms(arms, pinned), ty },
    }
}

/// Some arms without what releases or overwrites a pinned local.
pub open spec fn spared_arms(arms: Seq<(PatView, Term)>, pinned: Set<u32>) -> Seq<(PatView, Term)>
    decreases arms,
{
    if arms.len() == 0 {
        Seq::empty()
    } else {
        spared_arms(arms.drop_last(), pinned).push((arms.last().0, spared(arms.last().1, pinned)))
    }
}

/// Nothing in `a` moves or overwrites a local of `kept`.
pub open spec fn atom_keeps(a: AtomView, kept: Set<u32>) -> bool {
    match a {
        AtomView::Ctor { variant, fields, reuse } => match reuse {
            Some(r) => !kept.contains(r.0),
            None => true,
        },
        AtomView::Move(x) => !kept.contains(x.0),
        _ => true,
    }
}

/// Nothing in `e` releases, moves or overwrites a local of `kept`.
pub open spec fn keeps(e: Term, kept: Set<u32>) -> bool
    decreases e,
{
    match e {
        Term::Let { bind, rhs, body } => atom_keeps(rhs, kept) && keeps(*body, kept),
        Term::LetJoin { bind, join, body } => keeps(*join, kept) && keeps(*body, kept),
        Term::LetCont { id, cont, body } => keeps(*cont, kept) && keeps(*body, kept),
        Term::Drop { local, shape, body } => !kept.contains(local.0) && keeps(*body, kept),
        Term::Tail(a) => atom_keeps(a, kept),
        Term::Goto(id) => true,
        Term::If { cond, yes, no, ty } => keeps(*yes, kept) && keeps(*no, kept),
        Term::Match { scrut, arms, ty } => forall|i: int| 0 <= i < arms.len() ==> keeps((#[trigger] arms[i]).1, kept),
    }
}

/// What is spared keeps every pinned local: nothing releases, moves or overwrites
/// one.
pub proof fn sparing_keeps(e: Term, pinned: Set<u32>)
    ensures
        keeps(spared(e, pinned), pinned),
    decreases e,
{
    match e {
        Term::Let { bind, rhs, body } => {
            sparing_keeps(*body, pinned);
            assert(atom_keeps(spared_atom(rhs, pinned), pinned));
        },
        Term::LetJoin { bind, join, body } => {
            sparing_keeps(*join, pinned);
            sparing_keeps(*body, pinned);
        },
        Term::LetCont { id, cont, body } => {
            sparing_keeps(*cont, pinned);
            sparing_keeps(*body, pinned);
        },
        Term::Drop { local, shape, body } => sparing_keeps(*body, pinned),
        Term::Tail(a) => {},
        Term::Goto(id) => {},
        Term::If { cond, yes, no, ty } => {
            sparing_keeps(*yes, pinned);
            sparing_keeps(*no, pinned);
        },
        Term::Match { scrut, arms, ty } => {
            arms_sparing_keeps(arms, pinned);
            let all = spared_arms(arms, pinned);
            assert(spared(e, pinned) == (Term::Match { scrut, arms: all, ty }));
            assert(forall|i: int| 0 <= i < all.len() ==> keeps((#[trigger] all[i]).1, pinned));
        },
    }
}

proof fn arms_sparing_keeps(arms: Seq<(PatView, Term)>, pinned: Set<u32>)
    ensures
        forall|i: int| 0 <= i < spared_arms(arms, pinned).len() ==> keeps((#[trigger] spared_arms(arms, pinned)[i]).1, pinned),
    decreases arms,
{
    if arms.len() > 0 {
        let before = spared_arms(arms.drop_last(), pinned);
        let all = spared_arms(arms, pinned);
        arms_sparing_keeps(arms.drop_last(), pinned);
        sparing_keeps(arms.last().1, pinned);
        assert forall|i: int| 0 <= i < all.len() implies keeps((#[trigger] all[i]).1, pinned) by {
            if i < before.len() {
                assert(all[i] == before[i]);
                assert(keeps(before[i].1, pinned));
            }
        }
    }
}

/// Sparing changes nothing where no local it would spare is released, moved or
/// overwritten: sparing a body again, or sparing no locals at all.
pub proof fn sparing_what_is_kept(e: Term, pinned: Set<u32>)
    requires
        keeps(e, pinned),
    ensures
        spared(e, pinned) == e,
    decreases e,
{
    match e {
        Term::Let { bind, rhs, body } => sparing_what_is_kept(*body, pinned),
        Term::LetJoin { bind, join, body } => {
            sparing_what_is_kept(*join, pinned);
            sparing_what_is_kept(*body, pinned);
        },
        Term::LetCont { id, cont, body } => {
            sparing_what_is_kept(*cont, pinned);
            sparing_what_is_kept(*body, pinned);
        },
        Term::Drop { local, shape, body } => sparing_what_is_kept(*body, pinned),
        Term::Tail(a) => {},
        Term::Goto(id) => {},
        Term::If { cond, yes, no, ty } => {
            sparing_what_is_kept(*yes, pinned);
            sparing_what_is_kept(*no, pinned);
        },
        Term::Match { scrut, arms, ty } => arms_sparing_what_is_kept(arms, pinned),
    }
}

proof fn arms_sparing_what_is_kept(arms: Seq<(PatView, Term)>, pinned: Set<u32>)
    requires
        forall|i: int| 0 <= i < arms.len() ==> keeps((#[trigger] arms[i]).1, pinned),
    ensures
        spared_arms(arms, pinned) == arms,
    decreases arms,
{
    if arms.len() > 0 {
        assert forall|i: int| 0 <= i < arms.drop_last().len() implies keeps((#[trigger] arms.drop_last()[i]).1, pinned) by {
            assert(keeps(arms[i].1, pinned));
        }
        arms_sparing_what_is_kept(arms.drop_last(), pinned);
        sparing_what_is_kept(arms.last().1, pinned);
        assert(arms.drop_last().push(arms.last()) =~= arms);
    } else {
        assert(spared_arms(arms, pinned) =~= arms);
    }
}

/// No body touches a local of the empty set.
proof fn nothing_is_kept(e: Term)
    ensures
        keeps(e, Set::empty()),
    decreases e,
{
    match e {
        Term::Let { bind, rhs, body } => nothing_is_kept(*body),
        Term::LetJoin { bind, join, body } => {
            nothing_is_kept(*join);
            nothing_is_kept(*body);
        },
        Term::LetCont { id, cont, body } => {
            nothing_is_kept(*cont);
            nothing_is_kept(*body);
        },
        Term::Drop { local, shape, body } => nothing_is_kept(*body),
        Term::Tail(a) => {},
        Term::Goto(id) => {},
        Term::If { cond, yes, no, ty } => {
            nothing_is_kept(*yes);
            nothing_is_kept(*no);
        },
        Term::Match { scrut, arms, ty } => {
            assert forall|i: int| 0 <= i < arms.len() implies keeps((#[trigger] arms[i]).1, Set::empty()) by {
                nothing_is_kept(arms[i].1);
            }
        },
    }
}

impl CoreExpr {
    /// Adds the locals that the body pins to globals to `out`.
    pub fn toplevel_globals(&self, out: &mut BTreeSet<u32>)
        ensures
            final(out)@ == old(out)@.union(pins(self.view())),
            forall|x: u32| #[trigger]
                final(out)@.contains(x) <==> old(out)@.contains(x) || some_node(self.view(), pins_to_global(x)),
        decreases size(self.view()),
    {
        match self {
            CoreExpr::Let { bind, body, .. } => {
                if bind.global.is_some() {
                    out.insert(bind.id.0);
                }
                body.toplevel_globals(out);
            },
            CoreExpr::LetJoin { bind, join, body } => {
                if bind.global.is_some() {
                    out.insert(bind.id.0);
                }
                join.toplevel_globals(out);
                body.toplevel_globals(out);
            },
            CoreExpr::LetCont { cont, body, .. } => {
                cont.toplevel_globals(out);
                body.toplevel_globals(out);
            },
            CoreExpr::Drop { body, .. } => body.toplevel_globals(out),
            CoreExpr::Tail(_) => {},
            CoreExpr::Goto(_) => {},
            CoreExpr::If { yes, no, .. } => {
                yes.toplevel_globals(out);
                no.toplevel_globals(out);
            },
            CoreExpr::Match { arms, .. } => {
                let ghost views = arm_views(arms@);
                assert(self.view()->arms =~= views);
                let mut k: usize = 0;
                while k < arms.len()
                    invariant
                        k <= arms@.len(),
                        views == arm_views(arms@),
                        size(self.view()) == 1 + arms_size(views),
                        out@ == old(out)@.union(arms_pins(views.take(k as int))),
                    decreases arms@.len() - k,
                {
                    proof {
                        assert(views.take(k + 1).drop_last() =~= views.take(k as int));
                        assert(views.take(k + 1).last() == views[k as int]);
                        arm_is_smaller(views, k as int);
                    }
                    arms[k].1.toplevel_globals(out);
                    k += 1;
                    assert(out@ =~= old(out)@.union(arms_pins(views.take(k as int))));
                }
                assert(views.take(k as int) =~= views);
            },
        }
        assert(out@ =~= old(out)@.union(pins(self.view())));
        proof {
            assert forall|x: u32| #[trigger] out@.contains(x) <==> old(out)@.contains(x) || some_node(
                self.view(),
                pins_to_global(x),
            ) by {
                every_global_is_pinned(self.view(), x);
            }
        }
    }
}

/// Takes a module toplevel's pinned globals out of Perceus's hands: nothing
/// releases, moves or overwrites one.
///
/// Perceus sees only the toplevel, where a global's last read is not its last use:
/// function bodies read it for as long as the program runs.
pub fn keep_globals(f: CoreFn) -> (out: CoreFn)
    ensures
        out.params == f.params,
        out.ret_ty == f.ret_ty,
        out.body.view() == spared(f.body.view(), pins(f.body.view())),
        keeps(out.body.view(), pins(f.body.view())),
        forall|x: u32|
            some_node(f.body.view(), pins_to_global(x)) ==> !(#[trigger] some_node(out.body.view(), gives_up(x))),
        forall|x: u32|
            !some_node(f.body.view(), pins_to_global(x)) ==> (#[trigger] some_node(out.body.view(), gives_up(x)) <==> some_node(
                f.body.view(),
                gives_up(x),
            )),
        bare(out.body.view()) == bare(f.body.view()),
{
    let mut pinned: BTreeSet<u32> = BTreeSet::new();
    f.body.toplevel_globals(&mut pinned);
    assert(pinned@ =~= pins(f.body.view()));
    proof {
        let e = f.body.view();
        sparing_keeps(e, pinned@);
        sparing_computes_the_same(e, pinned@);
        assert forall|x: u32| #[trigger] some_node(spared(e, pinned@), gives_up(x)) <==> some_node(e, gives_up(x)) && !some_node(
            e,
            pins_to_global(x),
        ) by {
            globals_outlive_the_toplevel(e, x);
        }
    }
    if pinned.is_empty() {
        proof {
            assert(pinned@ =~= Set::empty());
            nothing_is_kept(f.body.view());
            sparing_what_is_kept(f.body.view(), pinned@);
        }
        return f;
    }
    let CoreFn { params, body, ret_ty } = f;
    let body = spare(body, &pinned);
    CoreFn { params, body, ret_ty }
}

/// [`keep_globals`]'s walk. Iterative along each spine and recursive only into
/// branches, so a long toplevel costs no stack depth.
pub fn spare(e: CoreExpr, pinned: &BTreeSet<u32>) -> (out: CoreExpr)
    ensures
        out.view() == spared(e.view(), pinned@),
    decreases size(e.view()),
{
    let ghost want = spared(e.view(), pinned@);
    let ghost whole = size(e.view());
    let mut spine: Vec<WalkedFrame> = Vec::new();
    let mut rest = e;
    loop
        invariant
            want == put_all_back(spine@, spared(rest.view(), pinned@)),
            size(rest.view()) <= whole,
            whole == size(e.view()),
        ensures
            want == put_all_back(spine@, spared(rest.view(), pinned@)),
            size(rest.view()) <= whole,
            is_end(rest.view()),
        decreases size(rest.view()),
    {
        let ghost frames = spine@;
        match rest {
            CoreExpr::Let { bind, rhs, body } => {
                let rhs = spare_atom(rhs, pinned);
                spine.push(WalkedFrame::Let { bind, rhs });
                assert(spine@.drop_last() =~= frames);
                rest = *body;
            },
            CoreExpr::LetJoin { bind, join, body } => {
                let join = spare(*join, pinned);
                spine.push(WalkedFrame::Join { bind, join });
                assert(spine@.drop_last() =~= frames);
                rest = *body;
            },
            CoreExpr::LetCont { id, cont, body } => {
                let cont = spare(*cont, pinned);
                spine.push(WalkedFrame::Cont { id, cont });
                assert(spine@.drop_last() =~= frames);
                rest = *body;
            },
            CoreExpr::Drop { local, shape, body } => {
                if !pinned.contains(&local.0) {
                    spine.push(WalkedFrame::Drop { local, shape });
                    assert(spine@.drop_last() =~= frames);
                }
                rest = *body;
            },
            other => {
                rest = other;
                break;
            },
        }
    }
    let mut body = match rest {
        CoreExpr::If { cond, yes, no, ty } => {
            let yes = spare(*yes, pinned);
            let no = spare(*no, pinned);
            CoreExpr::If { cond, yes: Box::new(yes), no: Box::new(no), ty }
        },
        CoreExpr::Match { scrut, arms, ty } => {
            let ghost views = arm_views(arms@);
            assert(rest.view()->arms =~= views);
            let mut out: Vec<(CorePat, CoreExpr)> = Vec::new();
            assert(views.take(0).len() == 0);
            assert(arm_views(out@) =~= Seq::empty());
            for (pat, body) in iter: arms.into_iter()
                invariant
                    views == arm_views(iter.seq()),
                    1 + arms_size(views) <= whole,
                    whole == size(e.view()),
                    arm_views(out@) == spared_arms(views.take(iter.index()), pinned@),
            {
                let ghost k = iter.index();
                let ghost taken = out@;
                proof {
                    assert(views.take(k + 1).drop_last() =~= views.take(k));
                    assert(views.take(k + 1).last() == views[k]);
                    arm_is_smaller(views, k);
                }
                let body = spare(body, pinned);
                out.push((pat, body));
                assert(arm_views(out@) =~= arm_views(taken).push((pat@, body.view())));
            }
            assert(views.take(views.len() as int) =~= views);
            let m = CoreExpr::Match { scrut, arms: out, ty };
            assert(m.view()->arms =~= arm_views(out@));
            m
        },
        CoreExpr::Tail(a) => CoreExpr::Tail(spare_atom(a, pinned)),
        other => other,
    };
    while spine.len() > 0
        invariant
            want == put_all_back(spine@, body.view()),
        decreases spine@.len(),
    {
        if let Some(frame) = spine.pop() {
            body = match frame {
                WalkedFrame::Let { bind, rhs } => CoreExpr::Let { bind, rhs, body: Box::new(body) },
                WalkedFrame::Join { bind, join } => CoreExpr::LetJoin {
                    bind,
                    join: Box::new(join),
                    body: Box::new(body),
                },
                WalkedFrame::Cont { id, cont } => CoreExpr::LetCont {
                    id,
                    cont: Box::new(cont),
                    body: Box::new(body),
                },
                WalkedFrame::Drop { local, shape } => CoreExpr::Drop { local, shape, body: Box::new(body) },
            };
        }
    }
    body
}

/// A move of a pinned global gives its reference up as a `Drop` would, so it
/// becomes a read that shares.
pub fn spare_atom(a: Atom, pinned: &BTreeSet<u32>) -> (out: Atom)
    ensures
        out@ == spared_atom(a@, pinned@),
{
    match a {
        Atom::Ctor { variant, fields, reuse } => {
            let reuse = match reuse {
                Some(r) => if pinned.contains(&r.0) {
                    None
                } else {
                    reuse
                },
                None => None,
            };
            Atom::Ctor { variant, fields, reuse }
        },
        Atom::Move(x) => if pinned.contains(&x.0) {
            Atom::Local(x)
        } else {
            Atom::Move(x)
        },
        a => a,
    }
}

} // verus!
