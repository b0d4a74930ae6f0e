//! How many locals a function numbers.
use vstd::prelude::*;

use crate::core_ir::drops::ids_of;
use crate::core_ir::perceus::{arm_is_smaller, arm_views, arms_size, size};
use crate::core_ir::{Atom, CoreBind, CoreExpr, CoreFn, CorePat, LocalId, PatView, Term};

verus! {

/// The larger of two numbers.
pub open spec fn larger(a: int, b: int) -> int {
    if a < b {
        b
    } else {
        a
    }
}

/// One more than the largest number in `ids`, or 0.
pub open spec fn ids_end(ids: Seq<LocalId>) -> int
    decreases ids.len(),
{
    if ids.len() == 0 {
        0
    } else {
        larger(ids_end(ids.drop_last()), ids.last().0 + 1)
    }
}

/// One more than the largest number that `bs` bind, or 0.
pub open spec fn binds_end(bs: Seq<CoreBind>) -> int {
    ids_end(ids_of(bs))
}

/// One more than the largest number of a local that `e` binds, reads or drops.
pub open spec fn end_of(e: Term) -> int
    decreases e,
{
    match e {
        Term::Let { bind, rhs, body } => larger(
            bind.id.0 + 1,
            larger(ids_end(rhs.operands()), end_of(*body)),
        ),
        Term::LetJoin { bind, join, body } => larger(bind.id.0 + 1, larger(end_of(*join), end_of(*body))),
        Term::LetCont { id, cont, body } => larger(end_of(*cont), end_of(*body)),
        Term::Drop { local, shape, body } => larger(local.0 + 1, end_of(*body)),
        Term::Tail(a) => ids_end(a.operands()),
        Term::Goto(id) => 0,
        Term::If { cond, yes, no, ty } => larger(cond.0 + 1, larger(end_of(*yes), end_of(*no))),
        Term::Match { scrut, arms, ty } => larger(scrut.0 + 1, arms_end(arms)),
    }
}

/// One more than the largest number of a local in some arms.
pub open spec fn arms_end(arms: Seq<(PatView, Term)>) -> int
    decreases arms,
{
    if arms.len() == 0 {
        0
    } else {
        larger(
            arms_end(arms.drop_last()),
            larger(binds_end(arms.last().0.binds()), end_of(arms.last().1)),
        )
    }
}

/// An arm's locals are among those of all arms.
pub proof fn arms_end_covers(arms: Seq<(PatView, Term)>, k: int)
    requires
        0 <= k <= arms.len(),
    ensures
        0 <= arms_end(arms.take(k)) <= arms_end(arms),
        forall|i: int| 0 <= i < k ==> binds_end((#[trigger] arms[i]).0.binds()) <= arms_end(arms) && end_of(arms[i].1) <= arms_end(arms),
    decreases arms.len(), arms.len() - k,
{
    if k < arms.len() {
        arms_end_covers(arms, k + 1);
        assert(arms.take(k + 1).drop_last() =~= arms.take(k));
        if k == 0 {
        } else {
            arms_end_covers(arms.take(k), k);
            assert(arms.take(k).take(k) =~= arms.take(k));
        }
    } else {
        assert(arms.take(k) =~= arms);
        if arms.len() > 0 {
            let before = arms.drop_last();
            arms_end_covers(before, before.len() as int);
            assert(before.take(before.len() as int) =~= before);
            assert forall|i: int| 0 <= i < k implies binds_end((#[trigger] arms[i]).0.binds()) <= arms_end(arms) && end_of(
                arms[i].1,
            ) <= arms_end(arms) by {
                if i < before.len() {
                    assert(arms[i] == before[i]);
                }
            }
        }
    }
}

/// `ids_end` of part of a sequence.
proof fn ids_end_grows(ids: Seq<LocalId>, k: int)
    requires
        0 <= k <= ids.len(),
    ensures
        0 <= ids_end(ids.take(k)) <= ids_end(ids),
    decreases ids.len() - k,
{
    ids_end_is_natural(ids.take(k));
    if k < ids.len() {
        ids_end_grows(ids, k + 1);
        assert(ids.take(k + 1).drop_last() =~= ids.take(k));
    } else {
        assert(ids.take(k) =~= ids);
    }
}

/// `ids_end` is no negative number.
pub proof fn ids_end_is_natural(ids: Seq<LocalId>)
    ensures
        0 <= ids_end(ids),
    decreases ids.len(),
{
    if ids.len() > 0 {
        ids_end_is_natural(ids.drop_last());
    }
}

/// The larger of two numbers.
fn max(a: u32, b: u32) -> (m: u32)
    ensures
        m == larger(a as int, b as int),
{
    if a < b {
        b
    } else {
        a
    }
}

fn operands_end(ids: &Vec<LocalId>) -> (end: u32)
    requires
        ids_end(ids@) <= u32::MAX,
    ensures
        end == ids_end(ids@),
{
    let mut end: u32 = 0;
    let mut k: usize = 0;
    assert(ids@.take(0).len() == 0);
    while k < ids.len()
        invariant
            k <= ids@.len(),
            end == ids_end(ids@.take(k as int)),
            ids_end(ids@) <= u32::MAX,
        decreases ids@.len() - k,
    {
        proof {
            ids_end_grows(ids@, k + 1);
            assert(ids@.take(k + 1).drop_last() =~= ids@.take(k as int));
            assert(ids@.take(k + 1).last() == ids@[k as int]);
        }
        end = max(end, ids[k].0 + 1);
        k += 1;
    }
    assert(ids@.take(k as int) =~= ids@);
    end
}

fn bound_end(bs: &Vec<CoreBind>) -> (end: u32)
    requires
        binds_end(bs@) <= u32::MAX,
    ensures
        end == binds_end(bs@),
{
    let ghost ids = ids_of(bs@);
    let mut end: u32 = 0;
    let mut k: usize = 0;
    assert(ids.take(0).len() == 0);
    while k < bs.len()
        invariant
            k <= bs@.len(),
            ids == ids_of(bs@),
            end == ids_end(ids.take(k as int)),
            ids_end(ids) <= u32::MAX,
        decreases bs@.len() - k,
    {
        proof {
            ids_end_grows(ids, k + 1);
            assert(ids.take(k + 1).drop_last() =~= ids.take(k as int));
            assert(ids.take(k + 1).last() == ids[k as int]);
        }
        end = max(end, bs[k].id.0 + 1);
        k += 1;
    }
    assert(ids.take(k as int) =~= ids);
    end
}

fn atom_end(a: &Atom) -> (end: u32)
    requires
        ids_end(a@.operands()) <= u32::MAX,
    ensures
        end == ids_end(a@.operands()),
{
    proof {
        reveal_with_fuel(ids_end, 2);
    }
    match a {
        Atom::Local(x) => {
            assert(a@.operands().drop_last().len() == 0);
            x.0 + 1
        },
        Atom::Move(x) => {
            assert(a@.operands().drop_last().len() == 0);
            x.0 + 1
        },
        Atom::Const(_) => 0,
        Atom::Nil => 0,
        Atom::Prim { args, .. } => operands_end(args),
        Atom::Ctor { fields, .. } => operands_end(fields),
        Atom::Call { args, .. } => operands_end(args),
    }
}

fn pat_end(p: &CorePat) -> (end: u32)
    requires
        binds_end(p@.binds()) <= u32::MAX,
    ensures
        end == binds_end(p@.binds()),
{
    proof {
        reveal_with_fuel(ids_end, 2);
    }
    match p {
        CorePat::Wild => 0,
        CorePat::Lit(_) => 0,
        CorePat::Bind(b) => {
            let ghost ids = ids_of(p@.binds());
            assert(ids.drop_last().len() == 0);
            assert(ids.last() == b.id);
            b.id.0 + 1
        },
        CorePat::Ctor { fields, .. } => bound_end(fields),
    }
}

impl CoreExpr {
    /// One more than the largest number of a local in the body.
    pub fn locals_end(&self) -> (end: u32)
        requires
            end_of(self.view()) <= u32::MAX,
        ensures
            end == end_of(self.view()),
        decreases size(self.view()),
    {
        match self {
            CoreExpr::Let { bind, rhs, body } => {
                let inner = body.locals_end();
                max(bind.id.0 + 1, max(atom_end(rhs), inner))
            },
            CoreExpr::LetJoin { bind, join, body } => {
                let j = join.locals_end();
                let inner = body.locals_end();
                max(bind.id.0 + 1, max(j, inner))
            },
            CoreExpr::LetCont { cont, body, .. } => {
                let c = cont.locals_end();
                let inner = body.locals_end();
                max(c, inner)
            },
            CoreExpr::Drop { local, body, .. } => {
                let inner = body.locals_end();
                max(local.0 + 1, inner)
            },
            CoreExpr::Tail(a) => atom_end(a),
            CoreExpr::Goto(_) => 0,
            CoreExpr::If { cond, yes, no, .. } => {
                let y = yes.locals_end();
                let n = no.locals_end();
                max(cond.0 + 1, max(y, n))
            },
            CoreExpr::Match { scrut, arms, .. } => {
                let ghost views = arm_views(arms@);
                assert(self.view()->arms =~= views);
                let mut end: u32 = 0;
                let mut k: usize = 0;
                assert(views.take(0).len() == 0);
                while k < arms.len()
                    invariant
                        k <= arms@.len(),
                        views == arm_views(arms@),
                        size(self.view()) == 1 + arms_size(views),
                        arms_end(views) <= u32::MAX,
                        end == arms_end(views.take(k as int)),
                    decreases arms@.len() - k,
                {
                    proof {
                        assert(views.take(k + 1).drop_last() =~= views.take(k as int));
                        assert(views.take(k + 1).last() == views[k as int]);
                        arm_is_smaller(views, k as int);
                        arms_end_covers(views, views.len() as int);
                    }
                    let p = pat_end(&arms[k].0);
                    let b = arms[k].1.locals_end();
                    end = max(end, max(p, b));
                    k += 1;
                }
                assert(views.take(k as int) =~= views);
                max(scrut.0 + 1, end)
            },
        }
    }
}

/// One more than the largest number of a local of a function.
pub open spec fn fn_end(f: CoreFn) -> int {
    larger(binds_end(f.params@), end_of(f.body.view()))
}

impl CoreFn {
    /// One more than the largest number of a local of the function.
    pub fn locals_end(&self) -> (end: u32)
        requires
            fn_end(*self) <= u32::MAX,
        ensures
            end == fn_end(*self),
    {
        let body = self.body.locals_end();
        max(bound_end(&self.params), body)
    }
}

} // verus!
