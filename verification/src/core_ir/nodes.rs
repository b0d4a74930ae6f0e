//! The nodes of a body, wherever they stand in it, and what is true of them.
//!
//! A path says which part of a node to go into at each step. What a pass does with a body is
//! said here of the nodes that paths lead to, at any depth.
use vstd::prelude::*;

use crate::core_ir::drops::ids_of;
use crate::core_ir::extent::{arms_end, binds_end, end_of, ids_end};
use crate::core_ir::globals::{arms_pins, keeps, pins, spared, spared_arms, sparing_keeps};
use crate::core_ir::mentions::{arms_load, arms_make, loads, makes};
use crate::core_ir::{AtomView, ConstId, CoreBind, LocalId, PatView, Term, TypeId};

verus! {

/// The bodies of some arms.
pub open spec fn bodies(arms: Seq<(PatView, Term)>) -> Seq<Term> {
    arms.map_values(|a: (PatView, Term)| a.1)
}

/// The bodies that stand directly in a node.
pub open spec fn parts(e: Term) -> Seq<Term> {
    match e {
        Term::Let { bind, rhs, body } => seq![*body],
        Term::LetJoin { bind, join, body } => seq![*join, *body],
        Term::LetCont { id, cont, body } => seq![*cont, *body],
        Term::Drop { local, shape, body } => seq![*body],
        Term::Tail(a) => Seq::empty(),
        Term::Goto(id) => Seq::empty(),
        Term::If { cond, yes, no, ty } => seq![*yes, *no],
        Term::Match { scrut, arms, ty } => bodies(arms),
    }
}

/// The node that a path leads to, if it leads to one.
pub open spec fn node_at(e: Term, path: Seq<int>) -> Option<Term>
    decreases path.len(),
{
    if path.len() == 0 {
        Some(e)
    } else if 0 <= path[0] < parts(e).len() {
        node_at(parts(e)[path[0]], path.skip(1))
    } else {
        None
    }
}

/// A path leads to a node of which `p` holds.
pub open spec fn leads_to(e: Term, path: Seq<int>, p: spec_fn(Term) -> bool) -> bool {
    match node_at(e, path) {
        Some(t) => p(t),
        None => false,
    }
}

/// Somewhere in `e` is a node of which `p` holds.
pub open spec fn some_node(e: Term, p: spec_fn(Term) -> bool) -> bool {
    exists|path: Seq<int>| #[trigger] leads_to(e, path, p)
}

/// Such a node is `e` itself, or stands in a part of it.
pub proof fn some_node_is_here_or_below(e: Term, p: spec_fn(Term) -> bool)
    ensures
        some_node(e, p) <==> p(e) || exists|i: int| 0 <= i < parts(e).len() && #[trigger] some_node(parts(e)[i], p),
{
    if some_node(e, p) {
        let path = choose|path: Seq<int>| #[trigger] leads_to(e, path, p);
        if path.len() > 0 {
            assert(leads_to(parts(e)[path[0]], path.skip(1), p));
            assert(some_node(parts(e)[path[0]], p));
        }
    }
    if p(e) {
        assert(leads_to(e, Seq::<int>::empty(), p));
    }
    if exists|i: int| 0 <= i < parts(e).len() && #[trigger] some_node(parts(e)[i], p) {
        let i = choose|i: int| 0 <= i < parts(e).len() && #[trigger] some_node(parts(e)[i], p);
        let rest = choose|path: Seq<int>| #[trigger] leads_to(parts(e)[i], path, p);
        let path = seq![i] + rest;
        assert(path.skip(1) =~= rest);
        assert(leads_to(e, path, p));
    }
}

/// The same, part by part.
pub proof fn nodes_of(e: Term, p: spec_fn(Term) -> bool)
    ensures
        match e {
            Term::Let { bind, rhs, body } => some_node(e, p) <==> p(e) || some_node(*body, p),
            Term::LetJoin { bind, join, body } => some_node(e, p) <==> p(e) || some_node(*join, p) || some_node(*body, p),
            Term::LetCont { id, cont, body } => some_node(e, p) <==> p(e) || some_node(*cont, p) || some_node(*body, p),
            Term::Drop { local, shape, body } => some_node(e, p) <==> p(e) || some_node(*body, p),
            Term::Tail(a) => some_node(e, p) <==> p(e),
            Term::Goto(id) => some_node(e, p) <==> p(e),
            Term::If { cond, yes, no, ty } => some_node(e, p) <==> p(e) || some_node(*yes, p) || some_node(*no, p),
            Term::Match { scrut, arms, ty } => some_node(e, p) <==> p(e) || exists|i: int|
                0 <= i < arms.len() && #[trigger] some_node(arms[i].1, p),
        },
{
    some_node_is_here_or_below(e, p);
    match e {
        Term::Let { bind, rhs, body } => {
            assert(parts(e)[0] == *body);
        },
        Term::LetJoin { bind, join, body } => {
            assert(parts(e)[0] == *join && parts(e)[1] == *body);
        },
        Term::LetCont { id, cont, body } => {
            assert(parts(e)[0] == *cont && parts(e)[1] == *body);
        },
        Term::Drop { local, shape, body } => {
            assert(parts(e)[0] == *body);
        },
        Term::Tail(a) => {},
        Term::Goto(id) => {},
        Term::If { cond, yes, no, ty } => {
            assert(parts(e)[0] == *yes && parts(e)[1] == *no);
        },
        Term::Match { scrut, arms, ty } => {
            assert forall|i: int| 0 <= i < arms.len() implies parts(e)[i] == (#[trigger] arms[i]).1 by {}
            if exists|i: int| 0 <= i < parts(e).len() && #[trigger] some_node(parts(e)[i], p) {
                let i = choose|i: int| 0 <= i < parts(e).len() && #[trigger] some_node(parts(e)[i], p);
                assert(some_node(arms[i].1, p));
            }
            if exists|i: int| 0 <= i < arms.len() && #[trigger] some_node(arms[i].1, p) {
                let i = choose|i: int| 0 <= i < arms.len() && #[trigger] some_node(arms[i].1, p);
                assert(some_node(parts(e)[i], p));
            }
        },
    }
}

/// The last arm, or one before it.
pub proof fn some_arm(arms: Seq<(PatView, Term)>, p: spec_fn(Term) -> bool)
    requires
        arms.len() > 0,
    ensures
        (exists|i: int| 0 <= i < arms.len() && #[trigger] some_node(arms[i].1, p)) <==> some_node(arms.last().1, p) || (exists|
            i: int,
        |
            0 <= i < arms.drop_last().len() && #[trigger] some_node(arms.drop_last()[i].1, p)),
{
    let rest = arms.drop_last();
    if exists|i: int| 0 <= i < arms.len() && #[trigger] some_node(arms[i].1, p) {
        let i = choose|i: int| 0 <= i < arms.len() && #[trigger] some_node(arms[i].1, p);
        if i < rest.len() {
            assert(some_node(rest[i].1, p));
        }
    }
    if exists|i: int| 0 <= i < rest.len() && #[trigger] some_node(rest[i].1, p) {
        let i = choose|i: int| 0 <= i < rest.len() && #[trigger] some_node(rest[i].1, p);
        assert(some_node(arms[i].1, p));
    }
    if some_node(arms.last().1, p) {
        assert(some_node(arms[arms.len() - 1].1, p));
    }
}

/// A node binds `x` to a value that a global is to hold.
pub open spec fn pins_to_global(x: u32) -> spec_fn(Term) -> bool {
    |t: Term|
        match t {
            Term::Let { bind, rhs, body } => bind.id.0 == x && bind.global is Some,
            Term::LetJoin { bind, join, body } => bind.id.0 == x && bind.global is Some,
            _ => false,
        }
}

/// An atom takes the reference of `x`, or writes over its cell.
pub open spec fn takes_up(a: AtomView, x: u32) -> bool {
    match a {
        AtomView::Move(y) => y.0 == x,
        AtomView::Ctor { variant, fields, reuse } => reuse == Some(LocalId(x)),
        _ => false,
    }
}

/// A node gives up what `x` holds: it drops it, moves it away, or writes over its cell.
pub open spec fn gives_up(x: u32) -> spec_fn(Term) -> bool {
    |t: Term|
        match t {
            Term::Drop { local, shape, body } => local.0 == x,
            Term::Let { bind, rhs, body } => takes_up(rhs, x),
            Term::Tail(a) => takes_up(a, x),
            _ => false,
        }
}

/// The pinned locals are those of the binds that have a global, every one of them, however deep
/// in the body it stands and whatever is bound before it.
pub proof fn every_global_is_pinned(e: Term, x: u32)
    ensures
        pins(e).contains(x) <==> some_node(e, pins_to_global(x)),
    decreases e,
{
    let p = pins_to_global(x);
    nodes_of(e, p);
    match e {
        Term::Let { bind, rhs, body } => {
            every_global_is_pinned(*body, x);
        },
        Term::LetJoin { bind, join, body } => {
            every_global_is_pinned(*join, x);
            every_global_is_pinned(*body, x);
        },
        Term::LetCont { id, cont, body } => {
            every_global_is_pinned(*cont, x);
            every_global_is_pinned(*body, x);
        },
        Term::Drop { local, shape, body } => {
            every_global_is_pinned(*body, x);
        },
        Term::Tail(a) => {},
        Term::Goto(id) => {},
        Term::If { cond, yes, no, ty } => {
            every_global_is_pinned(*yes, x);
            every_global_is_pinned(*no, x);
        },
        Term::Match { scrut, arms, ty } => {
            every_global_in_arms_is_pinned(arms, x);
        },
    }
}

proof fn every_global_in_arms_is_pinned(arms: Seq<(PatView, Term)>, x: u32)
    ensures
        arms_pins(arms).contains(x) <==> exists|i: int|
            0 <= i < arms.len() && #[trigger] some_node(arms[i].1, pins_to_global(x)),
    decreases arms,
{
    if arms.len() > 0 {
        every_global_in_arms_is_pinned(arms.drop_last(), x);
        every_global_is_pinned(arms.last().1, x);
        some_arm(arms, pins_to_global(x));
    }
}

/// A body keeps some locals exactly where no node of it gives one of them up.
pub proof fn keeping_is_giving_up_nowhere(e: Term, kept: Set<u32>)
    ensures
        keeps(e, kept) <==> forall|x: u32| #[trigger] kept.contains(x) ==> !some_node(e, gives_up(x)),
    decreases e,
{
    match e {
        Term::Let { bind, rhs, body } => {
            keeping_is_giving_up_nowhere(*body, kept);
        },
        Term::LetJoin { bind, join, body } => {
            keeping_is_giving_up_nowhere(*join, kept);
            keeping_is_giving_up_nowhere(*body, kept);
        },
        Term::LetCont { id, cont, body } => {
            keeping_is_giving_up_nowhere(*cont, kept);
            keeping_is_giving_up_nowhere(*body, kept);
        },
        Term::Drop { local, shape, body } => {
            keeping_is_giving_up_nowhere(*body, kept);
        },
        Term::Tail(a) => {},
        Term::Goto(id) => {},
        Term::If { cond, yes, no, ty } => {
            keeping_is_giving_up_nowhere(*yes, kept);
            keeping_is_giving_up_nowhere(*no, kept);
        },
        Term::Match { scrut, arms, ty } => {
            assert forall|i: int| 0 <= i < arms.len() implies (keeps((#[trigger] arms[i]).1, kept) <==> forall|x: u32| #[trigger]
                kept.contains(x) ==> !some_node(arms[i].1, gives_up(x))) by {
                keeping_is_giving_up_nowhere(arms[i].1, kept);
            }
        },
    }
    if keeps(e, kept) {
        assert forall|x: u32| #[trigger] kept.contains(x) implies !some_node(e, gives_up(x)) by {
            nodes_of(e, gives_up(x));
            if let Term::Match { scrut, arms, ty } = e {
                assert forall|i: int| 0 <= i < arms.len() implies !(#[trigger] some_node(arms[i].1, gives_up(x))) by {
                    assert(keeps(arms[i].1, kept));
                }
            }
        }
    }
    if forall|x: u32| #[trigger] kept.contains(x) ==> !some_node(e, gives_up(x)) {
        assert forall|x: u32| #[trigger] kept.contains(x) implies !(gives_up(x))(e) && forall|i: int|
            0 <= i < parts(e).len() ==> !(#[trigger] some_node(parts(e)[i], gives_up(x))) by {
            some_node_is_here_or_below(e, gives_up(x));
        }
        match e {
            Term::Let { bind, rhs, body } => {
                assert(parts(e)[0] == *body);
            },
            Term::LetJoin { bind, join, body } => {
                assert(parts(e)[0] == *join && parts(e)[1] == *body);
            },
            Term::LetCont { id, cont, body } => {
                assert(parts(e)[0] == *cont && parts(e)[1] == *body);
            },
            Term::Drop { local, shape, body } => {
                assert(parts(e)[0] == *body);
                if kept.contains(local.0) {
                    assert(!(gives_up(local.0))(e));
                }
            },
            Term::If { cond, yes, no, ty } => {
                assert(parts(e)[0] == *yes && parts(e)[1] == *no);
            },
            Term::Match { scrut, arms, ty } => {
                assert forall|i: int| 0 <= i < arms.len() implies keeps((#[trigger] arms[i]).1, kept) by {
                    assert(parts(e)[i] == arms[i].1);
                }
            },
            _ => {},
        }
    }
}

/// Sparing takes away no release but those of what is spared: where `x` is not, whatever gave it
/// up in the body still does, and nothing else does.
pub proof fn only_the_spared_is_spared(e: Term, pinned: Set<u32>, x: u32)
    requires
        !pinned.contains(x),
    ensures
        some_node(spared(e, pinned), gives_up(x)) <==> some_node(e, gives_up(x)),
    decreases e,
{
    let p = gives_up(x);
    nodes_of(e, p);
    nodes_of(spared(e, pinned), p);
    match e {
        Term::Let { bind, rhs, body } => {
            only_the_spared_is_spared(*body, pinned, x);
        },
        Term::LetJoin { bind, join, body } => {
            only_the_spared_is_spared(*join, pinned, x);
            only_the_spared_is_spared(*body, pinned, x);
        },
        Term::LetCont { id, cont, body } => {
            only_the_spared_is_spared(*cont, pinned, x);
            only_the_spared_is_spared(*body, pinned, x);
        },
        Term::Drop { local, shape, body } => {
            only_the_spared_is_spared(*body, pinned, x);
        },
        Term::Tail(a) => {},
        Term::Goto(id) => {},
        Term::If { cond, yes, no, ty } => {
            only_the_spared_is_spared(*yes, pinned, x);
            only_the_spared_is_spared(*no, pinned, x);
        },
        Term::Match { scrut, arms, ty } => {
            only_the_spared_is_spared_in_arms(arms, pinned, x);
            assert(spared(e, pinned) == (Term::Match { scrut, arms: spared_arms(arms, pinned), ty }));
        },
    }
}

proof fn only_the_spared_is_spared_in_arms(arms: Seq<(PatView, Term)>, pinned: Set<u32>, x: u32)
    requires
        !pinned.contains(x),
    ensures
        (exists|i: int| 0 <= i < spared_arms(arms, pinned).len() && #[trigger] some_node(spared_arms(arms, pinned)[i].1, gives_up(x)))
            <==> exists|i: int| 0 <= i < arms.len() && #[trigger] some_node(arms[i].1, gives_up(x)),
    decreases arms,
{
    if arms.len() > 0 {
        only_the_spared_is_spared_in_arms(arms.drop_last(), pinned, x);
        only_the_spared_is_spared(arms.last().1, pinned, x);
        some_arm(arms, gives_up(x));
        some_arm(spared_arms(arms, pinned), gives_up(x));
        assert(spared_arms(arms, pinned).drop_last() =~= spared_arms(arms.drop_last(), pinned));
    }
}

/// An atom but for what it takes up: what it reads, makes or calls.
pub open spec fn bare_atom(a: AtomView) -> AtomView {
    match a {
        AtomView::Move(x) => AtomView::Local(x),
        AtomView::Ctor { variant, fields, reuse } => AtomView::Ctor { variant, fields, reuse: None },
        _ => a,
    }
}

/// A body but for what it gives up.
pub open spec fn bare(e: Term) -> Term
    decreases e,
{
    match e {
        Term::Let { bind, rhs, body } => Term::Let { bind, rhs: bare_atom(rhs), body: Box::new(bare(*body)) },
        Term::LetJoin { bind, join, body } => Term::LetJoin {
            bind,
            join: Box::new(bare(*join)),
            body: Box::new(bare(*body)),
        },
        Term::LetCont { id, cont, body } => Term::LetCont {
            id,
            cont: Box::new(bare(*cont)),
            body: Box::new(bare(*body)),
        },
        Term::Drop { local, shape, body } => bare(*body),
        Term::Tail(a) => Term::Tail(bare_atom(a)),
        Term::Goto(id) => e,
        Term::If { cond, yes, no, ty } => Term::If { cond, yes: Box::new(bare(*yes)), no: Box::new(bare(*no)), ty },
        Term::Match { scrut, arms, ty } => Term::Match { scrut, arms: bare_arms(arms), ty },
    }
}

/// Some arms but for what they give up.
pub open spec fn bare_arms(arms: Seq<(PatView, Term)>) -> Seq<(PatView, Term)>
    decreases arms,
{
    if arms.len() == 0 {
        Seq::empty()
    } else {
        bare_arms(arms.drop_last()).push((arms.last().0, bare(arms.last().1)))
    }
}

/// Sparing changes what a body gives up, and nothing else: every other node of it is there, in
/// its place, and computes what it did.
pub proof fn sparing_computes_the_same(e: Term, pinned: Set<u32>)
    ensures
        bare(spared(e, pinned)) == bare(e),
    decreases e,
{
    match e {
        Term::Let { bind, rhs, body } => {
            sparing_computes_the_same(*body, pinned);
        },
        Term::LetJoin { bind, join, body } => {
            sparing_computes_the_same(*join, pinned);
            sparing_computes_the_same(*body, pinned);
        },
        Term::LetCont { id, cont, body } => {
            sparing_computes_the_same(*cont, pinned);
            sparing_computes_the_same(*body, pinned);
        },
        Term::Drop { local, shape, body } => {
            sparing_computes_the_same(*body, pinned);
        },
        Term::Tail(a) => {},
        Term::Goto(id) => {},
        Term::If { cond, yes, no, ty } => {
            sparing_computes_the_same(*yes, pinned);
            sparing_computes_the_same(*no, pinned);
        },
        Term::Match { scrut, arms, ty } => {
            sparing_arms_computes_the_same(arms, pinned);
        },
    }
}

proof fn sparing_arms_computes_the_same(arms: Seq<(PatView, Term)>, pinned: Set<u32>)
    ensures
        bare_arms(spared_arms(arms, pinned)) == bare_arms(arms),
    decreases arms,
{
    if arms.len() > 0 {
        sparing_arms_computes_the_same(arms.drop_last(), pinned);
        sparing_computes_the_same(arms.last().1, pinned);
        assert(spared_arms(arms, pinned).drop_last() =~= spared_arms(arms.drop_last(), pinned));
    }
}

/// A toplevel keeps its globals: where a bind of `x` anywhere in the body has a global, nothing in
/// what is kept of the body gives `x` up, and where none has, all that gave it up does so still.
pub proof fn globals_outlive_the_toplevel(e: Term, x: u32)
    ensures
        some_node(e, pins_to_global(x)) ==> !some_node(spared(e, pins(e)), gives_up(x)),
        !some_node(e, pins_to_global(x)) ==> (some_node(spared(e, pins(e)), gives_up(x)) <==> some_node(e, gives_up(x))),
        bare(spared(e, pins(e))) == bare(e),
{
    every_global_is_pinned(e, x);
    sparing_keeps(e, pins(e));
    keeping_is_giving_up_nowhere(spared(e, pins(e)), pins(e));
    sparing_computes_the_same(e, pins(e));
    if !pins(e).contains(x) {
        only_the_spared_is_spared(e, pins(e), x);
    }
}

/// An atom is the constant `c`.
pub open spec fn is_const(a: AtomView, c: u32) -> bool {
    a == AtomView::Const(ConstId(c))
}

/// A node loads the constant `c`, or has an arm for it.
pub open spec fn uses_const(c: u32) -> spec_fn(Term) -> bool {
    |t: Term|
        match t {
            Term::Let { bind, rhs, body } => is_const(rhs, c),
            Term::Tail(a) => is_const(a, c),
            Term::Match { scrut, arms, ty } => exists|i: int| 0 <= i < arms.len() && (#[trigger] arms[i]).0 == PatView::Lit(ConstId(c)),
            _ => false,
        }
}

/// An atom makes a value of the type `n`.
pub open spec fn is_made_of(a: AtomView, n: i32) -> bool {
    a is Ctor && a->Ctor_variant.type_id == TypeId(n)
}

/// A node makes a value of the type `n`, or has an arm for one.
pub open spec fn uses_type(n: i32) -> spec_fn(Term) -> bool {
    |t: Term|
        match t {
            Term::Let { bind, rhs, body } => is_made_of(rhs, n),
            Term::Tail(a) => is_made_of(a, n),
            Term::Match { scrut, arms, ty } => exists|i: int|
                0 <= i < arms.len() && (#[trigger] arms[i]).0 is Ctor && arms[i].0->Ctor_variant.type_id == TypeId(n),
            _ => false,
        }
}

/// A body loads the constants that its nodes load or compare with, at any depth, and no others.
pub proof fn constants_are_found_everywhere(e: Term, c: u32)
    ensures
        loads(e, c) <==> some_node(e, uses_const(c)),
    decreases e,
{
    nodes_of(e, uses_const(c));
    match e {
        Term::Let { bind, rhs, body } => {
            constants_are_found_everywhere(*body, c);
            if loads(e, c) && !loads(*body, c) {
                assert(rhs->Const_0 == ConstId(c));
            }
        },
        Term::LetJoin { bind, join, body } => {
            constants_are_found_everywhere(*join, c);
            constants_are_found_everywhere(*body, c);
        },
        Term::LetCont { id, cont, body } => {
            constants_are_found_everywhere(*cont, c);
            constants_are_found_everywhere(*body, c);
        },
        Term::Drop { local, shape, body } => {
            constants_are_found_everywhere(*body, c);
        },
        Term::Tail(a) => {
            if loads(e, c) {
                assert(a->Const_0 == ConstId(c));
            }
        },
        Term::Goto(id) => {},
        Term::If { cond, yes, no, ty } => {
            constants_are_found_everywhere(*yes, c);
            constants_are_found_everywhere(*no, c);
        },
        Term::Match { scrut, arms, ty } => {
            constants_in_arms_are_found(arms, c);
        },
    }
}

proof fn constants_in_arms_are_found(arms: Seq<(PatView, Term)>, c: u32)
    ensures
        arms_load(arms, c) <==> (exists|i: int| 0 <= i < arms.len() && (#[trigger] arms[i]).0 == PatView::Lit(ConstId(c))) || (
        exists|i: int| 0 <= i < arms.len() && #[trigger] some_node(arms[i].1, uses_const(c))),
    decreases arms,
{
    if arms.len() > 0 {
        let rest = arms.drop_last();
        let want = PatView::Lit(ConstId(c));
        constants_in_arms_are_found(rest, c);
        constants_are_found_everywhere(arms.last().1, c);
        some_arm(arms, uses_const(c));
        if arms.last().0 is Lit && arms.last().0->Lit_0.0 == c {
            assert(arms.last().0->Lit_0 == ConstId(c));
            assert(arms[arms.len() - 1].0 == want);
        }
        if exists|i: int| 0 <= i < rest.len() && (#[trigger] rest[i]).0 == want {
            let i = choose|i: int| 0 <= i < rest.len() && (#[trigger] rest[i]).0 == want;
            assert(arms[i].0 == want);
        }
        if exists|i: int| 0 <= i < arms.len() && (#[trigger] arms[i]).0 == want {
            let i = choose|i: int| 0 <= i < arms.len() && (#[trigger] arms[i]).0 == want;
            if i < rest.len() {
                assert(rest[i].0 == want);
            }
        }
    }
}

/// A body names the types of the constructors in its nodes, at any depth, and no others.
pub proof fn types_are_found_everywhere(e: Term, n: i32)
    ensures
        makes(e, n) <==> some_node(e, uses_type(n)),
    decreases e,
{
    nodes_of(e, uses_type(n));
    match e {
        Term::Let { bind, rhs, body } => {
            types_are_found_everywhere(*body, n);
        },
        Term::LetJoin { bind, join, body } => {
            types_are_found_everywhere(*join, n);
            types_are_found_everywhere(*body, n);
        },
        Term::LetCont { id, cont, body } => {
            types_are_found_everywhere(*cont, n);
            types_are_found_everywhere(*body, n);
        },
        Term::Drop { local, shape, body } => {
            types_are_found_everywhere(*body, n);
        },
        Term::Tail(a) => {},
        Term::Goto(id) => {},
        Term::If { cond, yes, no, ty } => {
            types_are_found_everywhere(*yes, n);
            types_are_found_everywhere(*no, n);
        },
        Term::Match { scrut, arms, ty } => {
            types_in_arms_are_found(arms, n);
        },
    }
}

proof fn types_in_arms_are_found(arms: Seq<(PatView, Term)>, n: i32)
    ensures
        arms_make(arms, n) <==> (exists|i: int|
            0 <= i < arms.len() && (#[trigger] arms[i]).0 is Ctor && arms[i].0->Ctor_variant.type_id == TypeId(n)) || (exists|i: int|
            0 <= i < arms.len() && #[trigger] some_node(arms[i].1, uses_type(n))),
    decreases arms,
{
    if arms.len() > 0 {
        let rest = arms.drop_last();
        types_in_arms_are_found(rest, n);
        types_are_found_everywhere(arms.last().1, n);
        some_arm(arms, uses_type(n));
        if arms.last().0 is Ctor && arms.last().0->Ctor_variant.type_id.0 == n {
            assert(arms[arms.len() - 1].0 is Ctor);
        }
        if exists|i: int| 0 <= i < rest.len() && (#[trigger] rest[i]).0 is Ctor && rest[i].0->Ctor_variant.type_id == TypeId(n) {
            let i = choose|i: int|
                0 <= i < rest.len() && (#[trigger] rest[i]).0 is Ctor && rest[i].0->Ctor_variant.type_id == TypeId(n);
            assert(arms[i].0 is Ctor);
        }
        if exists|i: int| 0 <= i < arms.len() && (#[trigger] arms[i]).0 is Ctor && arms[i].0->Ctor_variant.type_id == TypeId(n) {
            let i = choose|i: int|
                0 <= i < arms.len() && (#[trigger] arms[i]).0 is Ctor && arms[i].0->Ctor_variant.type_id == TypeId(n);
            if i < rest.len() {
                assert(rest[i].0 is Ctor);
            }
        }
    }
}

/// Some binds name `x`.
pub open spec fn binds_name(bs: Seq<CoreBind>, x: u32) -> bool {
    exists|i: int| 0 <= i < bs.len() && (#[trigger] bs[i]).id.0 == x
}

/// A node names the local `x`: it binds it, reads it, or drops it.
pub open spec fn names(x: u32) -> spec_fn(Term) -> bool {
    |t: Term|
        match t {
            Term::Let { bind, rhs, body } => bind.id.0 == x || rhs.operands().contains(LocalId(x)),
            Term::LetJoin { bind, join, body } => bind.id.0 == x,
            Term::LetCont { id, cont, body } => false,
            Term::Drop { local, shape, body } => local.0 == x,
            Term::Tail(a) => a.operands().contains(LocalId(x)),
            Term::Goto(id) => false,
            Term::If { cond, yes, no, ty } => cond.0 == x,
            Term::Match { scrut, arms, ty } => scrut.0 == x || exists|i: int|
                0 <= i < arms.len() && binds_name((#[trigger] arms[i]).0.binds(), x),
        }
}

/// The end of some numbers is past all of them, and just past the largest.
proof fn ids_end_is_just_past(ids: Seq<LocalId>)
    ensures
        0 <= ids_end(ids),
        forall|x: u32| #[trigger] ids.contains(LocalId(x)) ==> x < ids_end(ids),
        ids_end(ids) > 0 ==> ids_end(ids) - 1 <= u32::MAX && ids.contains(LocalId((ids_end(ids) - 1) as u32)),
    decreases ids.len(),
{
    if ids.len() > 0 {
        let rest = ids.drop_last();
        ids_end_is_just_past(rest);
        assert forall|x: u32| #[trigger] ids.contains(LocalId(x)) implies x < ids_end(ids) by {
            let i = choose|i: int| 0 <= i < ids.len() && ids[i] == LocalId(x);
            if i < rest.len() {
                assert(rest[i] == LocalId(x));
                assert(rest.contains(LocalId(x)));
            }
        }
        if ids_end(ids) == ids_end(rest) && ids_end(rest) > 0 {
            let x = LocalId((ids_end(rest) - 1) as u32);
            let i = choose|i: int| 0 <= i < rest.len() && rest[i] == x;
            assert(ids[i] == x);
        } else {
            assert(ids[ids.len() - 1] == LocalId((ids_end(ids) - 1) as u32));
        }
    }
}

proof fn binds_end_is_just_past(bs: Seq<CoreBind>)
    ensures
        0 <= binds_end(bs),
        forall|x: u32| #[trigger] binds_name(bs, x) ==> x < binds_end(bs),
        binds_end(bs) > 0 ==> binds_end(bs) - 1 <= u32::MAX && binds_name(bs, (binds_end(bs) - 1) as u32),
{
    let ids = ids_of(bs);
    ids_end_is_just_past(ids);
    assert forall|x: u32| #[trigger] binds_name(bs, x) implies x < binds_end(bs) by {
        let i = choose|i: int| 0 <= i < bs.len() && (#[trigger] bs[i]).id.0 == x;
        assert(ids[i] == LocalId(x));
        assert(ids.contains(LocalId(x)));
    }
    if binds_end(bs) > 0 {
        let x = LocalId((binds_end(bs) - 1) as u32);
        let i = choose|i: int| 0 <= i < ids.len() && ids[i] == x;
        assert(bs[i].id == x);
    }
}

/// The end of a body's numbers is past every local that a node of it names, at any depth, and just
/// past the largest: a local that is minted from there on is new, and none is left out.
pub proof fn the_end_is_just_past_every_local(e: Term)
    ensures
        0 <= end_of(e),
        forall|x: u32| #[trigger] some_node(e, names(x)) ==> x < end_of(e),
        end_of(e) > 0 ==> end_of(e) - 1 <= u32::MAX && some_node(e, names((end_of(e) - 1) as u32)),
    decreases e,
{
    let top = (end_of(e) - 1) as u32;
    nodes_of(e, names(top));
    match e {
        Term::Let { bind, rhs, body } => {
            the_end_is_just_past_every_local(*body);
            ids_end_is_just_past(rhs.operands());
            assert forall|x: u32| #[trigger] some_node(e, names(x)) implies x < end_of(e) by {
                nodes_of(e, names(x));
            }
        },
        Term::LetJoin { bind, join, body } => {
            the_end_is_just_past_every_local(*join);
            the_end_is_just_past_every_local(*body);
            assert forall|x: u32| #[trigger] some_node(e, names(x)) implies x < end_of(e) by {
                nodes_of(e, names(x));
            }
        },
        Term::LetCont { id, cont, body } => {
            the_end_is_just_past_every_local(*cont);
            the_end_is_just_past_every_local(*body);
            assert forall|x: u32| #[trigger] some_node(e, names(x)) implies x < end_of(e) by {
                nodes_of(e, names(x));
            }
        },
        Term::Drop { local, shape, body } => {
            the_end_is_just_past_every_local(*body);
            assert forall|x: u32| #[trigger] some_node(e, names(x)) implies x < end_of(e) by {
                nodes_of(e, names(x));
            }
        },
        Term::Tail(a) => {
            ids_end_is_just_past(a.operands());
            assert forall|x: u32| #[trigger] some_node(e, names(x)) implies x < end_of(e) by {
                nodes_of(e, names(x));
            }
        },
        Term::Goto(id) => {
            assert forall|x: u32| #[trigger] some_node(e, names(x)) implies x < end_of(e) by {
                nodes_of(e, names(x));
            }
        },
        Term::If { cond, yes, no, ty } => {
            the_end_is_just_past_every_local(*yes);
            the_end_is_just_past_every_local(*no);
            assert forall|x: u32| #[trigger] some_node(e, names(x)) implies x < end_of(e) by {
                nodes_of(e, names(x));
            }
        },
        Term::Match { scrut, arms, ty } => {
            the_end_is_just_past_every_arm(arms);
            assert forall|x: u32| #[trigger] some_node(e, names(x)) implies x < end_of(e) by {
                nodes_of(e, names(x));
                assert(in_some_arm(arms, x) ==> x < arms_end(arms));
            }
        },
    }
}

/// An arm names the local `x`, in its pattern or in its body.
pub open spec fn in_some_arm(arms: Seq<(PatView, Term)>, x: u32) -> bool {
    (exists|i: int| 0 <= i < arms.len() && binds_name((#[trigger] arms[i]).0.binds(), x)) || (exists|i: int|
        0 <= i < arms.len() && #[trigger] some_node(arms[i].1, names(x)))
}

proof fn the_end_is_just_past_every_arm(arms: Seq<(PatView, Term)>)
    ensures
        0 <= arms_end(arms),
        forall|x: u32| #[trigger] in_some_arm(arms, x) ==> x < arms_end(arms),
        arms_end(arms) > 0 ==> arms_end(arms) - 1 <= u32::MAX && in_some_arm(arms, (arms_end(arms) - 1) as u32),
    decreases arms,
{
    if arms.len() > 0 {
        let rest = arms.drop_last();
        let last = arms.last();
        the_end_is_just_past_every_arm(rest);
        the_end_is_just_past_every_local(last.1);
        binds_end_is_just_past(last.0.binds());
        assert forall|x: u32| #[trigger] in_some_arm(arms, x) <==> in_some_arm(rest, x) || binds_name(last.0.binds(), x) || some_node(
            last.1,
            names(x),
        ) by {
            some_arm(arms, names(x));
            if exists|i: int| 0 <= i < arms.len() && binds_name((#[trigger] arms[i]).0.binds(), x) {
                let i = choose|i: int| 0 <= i < arms.len() && binds_name((#[trigger] arms[i]).0.binds(), x);
                if i < rest.len() {
                    assert(binds_name(rest[i].0.binds(), x));
                }
            }
            if exists|i: int| 0 <= i < rest.len() && binds_name((#[trigger] rest[i]).0.binds(), x) {
                let i = choose|i: int| 0 <= i < rest.len() && binds_name((#[trigger] rest[i]).0.binds(), x);
                assert(binds_name(arms[i].0.binds(), x));
            }
            if binds_name(last.0.binds(), x) {
                assert(binds_name(arms[arms.len() - 1].0.binds(), x));
            }
        }
    }
}

} // verus!
