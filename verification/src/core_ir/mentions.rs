//! The constants and the types that a body mentions.
use std::collections::BTreeSet;

use vstd::prelude::*;

use crate::core_ir::nodes::{
    constants_are_found_everywhere, some_node, types_are_found_everywhere, uses_const, uses_type,
};
use crate::core_ir::perceus::{arm_is_smaller, arm_views, arms_size, size};
use crate::core_ir::{Atom, AtomView, CoreExpr, CorePat, PatView, Term};

verus! {

broadcast use {vstd::std_specs::btree::group_btree_axioms, vstd::laws_cmp::group_laws_cmp};

/// An atom loads a constant.
pub open spec fn atom_loads(a: AtomView, c: u32) -> bool {
    a matches AtomView::Const(k) && k.0 == c
}

/// A pattern compares with a constant.
pub open spec fn pat_loads(p: PatView, c: u32) -> bool {
    p matches PatView::Lit(k) && k.0 == c
}

/// A body loads a constant, or compares with it.
pub open spec fn loads(e: Term, c: u32) -> bool
    decreases e,
{
    match e {
        Term::Let { bind, rhs, body } => atom_loads(rhs, c) || loads(*body, c),
        Term::LetJoin { bind, join, body } => loads(*join, c) || loads(*body, c),
        Term::LetCont { id, cont, body } => loads(*cont, c) || loads(*body, c),
        Term::Drop { local, shape, body } => loads(*body, c),
        Term::Tail(a) => atom_loads(a, c),
        Term::Goto(id) => false,
        Term::If { cond, yes, no, ty } => loads(*yes, c) || loads(*no, c),
        Term::Match { scrut, arms, ty } => arms_load(arms, c),
    }
}

/// One of some arms loads a constant, or compares with it.
pub open spec fn arms_load(arms: Seq<(PatView, Term)>, c: u32) -> bool
    decreases arms,
{
    arms.len() > 0 && (arms_load(arms.drop_last(), c) || pat_loads(arms.last().0, c) || loads(arms.last().1, c))
}

/// An atom makes a value of a type.
pub open spec fn atom_makes(a: AtomView, t: i32) -> bool {
    a matches AtomView::Ctor { variant, .. } && variant.type_id.0 == t
}

/// A pattern asks for a constructor of a type.
pub open spec fn pat_makes(p: PatView, t: i32) -> bool {
    p matches PatView::Ctor { variant, .. } && variant.type_id.0 == t
}

/// A body names a constructor of a type.
pub open spec fn makes(e: Term, t: i32) -> bool
    decreases e,
{
    match e {
        Term::Let { bind, rhs, body } => atom_makes(rhs, t) || makes(*body, t),
        Term::LetJoin { bind, join, body } => makes(*join, t) || makes(*body, t),
        Term::LetCont { id, cont, body } => makes(*cont, t) || makes(*body, t),
        Term::Drop { local, shape, body } => makes(*body, t),
        Term::Tail(a) => atom_makes(a, t),
        Term::Goto(id) => false,
        Term::If { cond, yes, no, ty } => makes(*yes, t) || makes(*no, t),
        Term::Match { scrut, arms, ty } => arms_make(arms, t),
    }
}

/// One of some arms names a constructor of a type.
pub open spec fn arms_make(arms: Seq<(PatView, Term)>, t: i32) -> bool
    decreases arms,
{
    arms.len() > 0 && (arms_make(arms.drop_last(), t) || pat_makes(arms.last().0, t) || makes(arms.last().1, t))
}

fn atom_mentions(a: &Atom, consts: &mut BTreeSet<u32>, types: &mut BTreeSet<i32>)
    ensures
        forall|c: u32| #[trigger] final(consts)@.contains(c) <==> old(consts)@.contains(c) || atom_loads(a@, c),
        forall|t: i32| #[trigger] final(types)@.contains(t) <==> old(types)@.contains(t) || atom_makes(a@, t),
{
    match a {
        Atom::Const(k) => {
            consts.insert(k.0);
        },
        Atom::Ctor { variant, .. } => {
            types.insert(variant.type_id.0);
        },
        _ => {},
    }
}

fn pat_mentions(p: &CorePat, consts: &mut BTreeSet<u32>, types: &mut BTreeSet<i32>)
    ensures
        forall|c: u32| #[trigger] final(consts)@.contains(c) <==> old(consts)@.contains(c) || pat_loads(p@, c),
        forall|t: i32| #[trigger] final(types)@.contains(t) <==> old(types)@.contains(t) || pat_makes(p@, t),
{
    match p {
        CorePat::Lit(k) => {
            consts.insert(k.0);
        },
        CorePat::Ctor { variant, .. } => {
            types.insert(variant.type_id.0);
        },
        _ => {},
    }
}

impl CoreExpr {
    /// Adds the constants that the body loads or compares with, and the types whose
    /// constructors it names.
    pub fn mentions(&self, consts: &mut BTreeSet<u32>, types: &mut BTreeSet<i32>)
        ensures
            forall|c: u32| #[trigger] final(consts)@.contains(c) <==> old(consts)@.contains(c) || loads(self.view(), c),
            forall|t: i32| #[trigger] final(types)@.contains(t) <==> old(types)@.contains(t) || makes(self.view(), t),
            forall|c: u32| #[trigger]
                final(consts)@.contains(c) <==> old(consts)@.contains(c) || some_node(self.view(), uses_const(c)),
            forall|t: i32| #[trigger]
                final(types)@.contains(t) <==> old(types)@.contains(t) || some_node(self.view(), uses_type(t)),
        decreases size(self.view()),
    {
        match self {
            CoreExpr::Let { rhs, body, .. } => {
                atom_mentions(rhs, consts, types);
                body.mentions(consts, types);
            },
            CoreExpr::LetJoin { join, body, .. } => {
                join.mentions(consts, types);
                body.mentions(consts, types);
            },
            CoreExpr::LetCont { cont, body, .. } => {
                cont.mentions(consts, types);
                body.mentions(consts, types);
            },
            CoreExpr::Drop { body, .. } => {
                body.mentions(consts, types);
            },
            CoreExpr::Tail(a) => {
                atom_mentions(a, consts, types);
            },
            CoreExpr::Goto(_) => {},
            CoreExpr::If { yes, no, .. } => {
                yes.mentions(consts, types);
                no.mentions(consts, types);
            },
            CoreExpr::Match { arms, .. } => {
                let ghost views = arm_views(arms@);
                let ghost (consts0, types0) = (consts@, types@);
                assert(self.view()->arms =~= views);
                let mut k: usize = 0;
                assert(views.take(0).len() == 0);
                while k < arms.len()
                    invariant
                        k <= arms@.len(),
                        views == arm_views(arms@),
                        size(self.view()) == 1 + arms_size(views),
                        forall|c: u32| #[trigger]
                            consts@.contains(c) <==> consts0.contains(c) || arms_load(views.take(k as int), c),
                        forall|t: i32| #[trigger]
                            types@.contains(t) <==> types0.contains(t) || arms_make(views.take(k as int), t),
                    decreases arms@.len() - k,
                {
                    proof {
                        assert(views.take(k + 1).drop_last() =~= views.take(k as int));
                        assert(views.take(k + 1).last() == views[k as int]);
                        arm_is_smaller(views, k as int);
                    }
                    pat_mentions(&arms[k].0, consts, types);
                    arms[k].1.mentions(consts, types);
                    k += 1;
                }
                assert(views.take(k as int) =~= views);
            },
        }
        proof {
            assert forall|c: u32| #[trigger] consts@.contains(c) <==> old(consts)@.contains(c) || some_node(
                self.view(),
                uses_const(c),
            ) by {
                constants_are_found_everywhere(self.view(), c);
            }
            assert forall|t: i32| #[trigger] types@.contains(t) <==> old(types)@.contains(t) || some_node(
                self.view(),
                uses_type(t),
            ) by {
                types_are_found_everywhere(self.view(), t);
            }
        }
    }
}

} // verus!
