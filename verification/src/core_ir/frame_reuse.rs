//! A constructor overwrites only a cell that is parked on every way to it, in this turn of a
//! loop or the one before.
use vstd::prelude::*;

use crate::core_ir::balance::{
    arms_binders, arms_own, binders, brought, held, is_slots, owns, with_bind, with_binds, with_binds_facts, Env,
};
use crate::core_ir::drops::{bound_set, ExitView};
use crate::core_ir::perceus::{arms_size, size};
use crate::core_ir::reuse::{
    arms_exits_stay, besides, calls_self, exits_stay, let_pick, let_take, on_all, on_each, paired, paired_arms, parked, reused, seed,
    tail_pick, tail_take, Token,
};
use crate::core_ir::second_walk::{arms_reuse_free, more_finds_more, overwritten, reuse_free};
use crate::core_ir::stacks::{
    common_is_on_each, kept_is_part, part_has, part_of, part_of_itself, picked_is_there, rest_is_part,
};
use crate::core_ir::types::ResolvedPool;
use crate::core_ir::{AtomView, LocalId, PatView, ReuseShape, Term};

verus! {

/// An emptied cell: its slot and its size.
pub type Parked = Set<(u32, usize)>;

/// The cell of a token is sure to be parked: it is not one that the turn of the loop before
/// left in a slot of `dead`, which is overwritten on the way.
pub open spec fn sure(t: Token, dead: Set<u32>) -> bool {
    !(t.carried && dead.contains(t.slot.0))
}

/// The cells of a stack that are sure to be parked.
pub open spec fn cells(avail: Seq<Token>, dead: Set<u32>) -> Parked {
    Set::new(
        |c: (u32, usize)|
            exists|t: Token| #[trigger] avail.contains(t) && sure(t, dead) && t.slot.0 == c.0 && t.shape.fields == c.1,
    )
}

/// The cells in other slots than `slot`.
pub open spec fn elsewhere(c: Parked, slot: LocalId) -> Parked {
    Set::new(|x: (u32, usize)| c.contains(x) && x.0 != slot.0)
}

/// What an atom leaves parked.
pub open spec fn left_by(a: AtomView, c: Parked) -> Parked {
    match overwritten(a) {
        Some(x) => c.remove(x),
        None => c,
    }
}

/// The cell that an atom overwrites, if it does, is parked.
pub open spec fn finds(a: AtomView, c: Parked) -> bool {
    match overwritten(a) {
        Some(x) => c.contains(x),
        None => true,
    }
}

/// The code after the joins that stand open, innermost last: what each binds, and
/// its body.
pub type Rests = Seq<(LocalId, Term)>;

/// The number of nodes of the code after some joins.
pub open spec fn rests_size(k: Rests) -> nat
    decreases k.len(),
{
    if k.len() == 0 {
        0
    } else {
        rests_size(k.drop_last()) + size(k.last().1)
    }
}

/// On every path through `e` and then through `k`, which starts with `c` parked,
/// each constructor that overwrites a cell finds it parked, in its own size, and each
/// call of the function itself in tail position leaves `s` parked.
pub open spec fn overwrites_parked(e: Term, c: Parked, k: Rests, s: Parked) -> bool
    decreases size(e) + rests_size(k),
{
    match e {
        Term::Drop { local, shape, body } => overwrites_parked(*body, with_parked(c, local, shape), k, s),
        Term::Let { bind, rhs, body } => finds(rhs, c) && overwrites_parked(
            *body,
            elsewhere(left_by(rhs, c), bind.id),
            k,
            s,
        ),
        Term::LetJoin { bind, join, body } => {
            proof {
                assert(k.push((bind.id, *body)).drop_last() =~= k);
            }
            overwrites_parked(*join, c, k.push((bind.id, *body)), s)
        },
        Term::LetCont { id, cont, body } => overwrites_parked(*cont, Set::empty(), k, s) && overwrites_parked(*body, c, k, s),
        Term::If { cond, yes, no, ty } => overwrites_parked(*yes, c, k, s) && overwrites_parked(*no, c, k, s),
        Term::Match { scrut, arms, ty } => arms_overwrite_parked(arms, c, k, s),
        Term::Tail(a) => {
            &&& finds(a, c)
            &&& if k.len() == 0 {
                calls_self(a) ==> s.subset_of(left_by(a, c))
            } else {
                overwrites_parked(k.last().1, elsewhere(left_by(a, c), k.last().0), k.drop_last(), s)
            }
        },
        Term::Goto(id) => true,
    }
}

/// The same of each of some arms.
pub open spec fn arms_overwrite_parked(arms: Seq<(PatView, Term)>, c: Parked, k: Rests, s: Parked) -> bool
    decreases arms_size(arms) + rests_size(k),
{
    arms.len() == 0 || (arms_overwrite_parked(arms.drop_last(), c, k, s) && overwrites_parked(arms.last().1, c, k, s))
}

/// The code after the innermost join finds what it overwrites.
pub open spec fn resumes(c: Parked, k: Rests, s: Parked) -> bool {
    k.len() == 0 || overwrites_parked(k.last().1, elsewhere(c, k.last().0), k.drop_last(), s)
}

/// What a `Drop` leaves parked.
pub open spec fn with_parked(c: Parked, local: LocalId, shape: Option<ReuseShape>) -> Parked {
    match shape {
        Some(s) => if s.fields > 0 {
            c.insert((local.0, s.fields))
        } else {
            c
        },
        None => c,
    }
}

/// More parked cells do no harm.
proof fn more_is_no_harm(e: Term, c: Parked, d: Parked, k: Rests, s: Parked)
    requires
        c.subset_of(d),
        overwrites_parked(e, c, k, s),
    ensures
        overwrites_parked(e, d, k, s),
    decreases size(e) + rests_size(k),
{
    match e {
        Term::Drop { local, shape, body } => {
            more_is_no_harm(*body, with_parked(c, local, shape), with_parked(d, local, shape), k, s);
        },
        Term::Let { bind, rhs, body } => {
            more_is_no_harm(*body, elsewhere(left_by(rhs, c), bind.id), elsewhere(left_by(rhs, d), bind.id), k, s);
        },
        Term::LetJoin { bind, join, body } => {
            assert(k.push((bind.id, *body)).drop_last() =~= k);
            more_is_no_harm(*join, c, d, k.push((bind.id, *body)), s);
        },
        Term::LetCont { id, cont, body } => {
            more_is_no_harm(*body, c, d, k, s);
        },
        Term::If { cond, yes, no, ty } => {
            more_is_no_harm(*yes, c, d, k, s);
            more_is_no_harm(*no, c, d, k, s);
        },
        Term::Match { scrut, arms, ty } => {
            more_is_no_harm_to_arms(arms, c, d, k, s);
        },
        Term::Tail(a) => {
            if k.len() > 0 {
                let slot = k.last().0;
                more_is_no_harm(
                    k.last().1,
                    elsewhere(left_by(a, c), slot),
                    elsewhere(left_by(a, d), slot),
                    k.drop_last(),
                    s,
                );
            }
        },
        Term::Goto(id) => {},
    }
}

proof fn more_is_no_harm_to_arms(arms: Seq<(PatView, Term)>, c: Parked, d: Parked, k: Rests, s: Parked)
    requires
        c.subset_of(d),
        arms_overwrite_parked(arms, c, k, s),
    ensures
        arms_overwrite_parked(arms, d, k, s),
    decreases arms_size(arms) + rests_size(k),
{
    if arms.len() > 0 {
        more_is_no_harm_to_arms(arms.drop_last(), c, d, k, s);
        more_is_no_harm(arms.last().1, c, d, k, s);
    }
}

/// Each local of `e` is bound once.
pub open spec fn bound_once(e: Term) -> bool
    decreases e,
{
    match e {
        Term::Let { bind, rhs, body } => !binders(*body).contains(bind.id.0) && bound_once(*body),
        Term::LetJoin { bind, join, body } => {
            &&& !binders(*body).contains(bind.id.0)
            &&& !binders(*join).contains(bind.id.0)
            &&& binders(*join).disjoint(binders(*body))
            &&& bound_once(*join)
            &&& bound_once(*body)
        },
        Term::LetCont { id, cont, body } => {
            &&& binders(*cont).disjoint(binders(*body))
            &&& bound_once(*cont)
            &&& bound_once(*body)
        },
        Term::Drop { local, shape, body } => bound_once(*body),
        Term::Tail(a) => true,
        Term::Goto(id) => true,
        Term::If { cond, yes, no, ty } => binders(*yes).disjoint(binders(*no)) && bound_once(*yes) && bound_once(*no),
        Term::Match { scrut, arms, ty } => arms_bound_once(arms),
    }
}

/// Each local of some arms is bound once.
pub open spec fn arms_bound_once(arms: Seq<(PatView, Term)>) -> bool
    decreases arms,
{
    arms.len() == 0 || {
        &&& arms_bound_once(arms.drop_last())
        &&& bound_once(arms.last().1)
        &&& bound_set(arms.last().0).disjoint(binders(arms.last().1))
        &&& arms_binders(arms.drop_last()).disjoint(bound_set(arms.last().0))
        &&& arms_binders(arms.drop_last()).disjoint(binders(arms.last().1))
    }
}

/// No two tokens that are sure are of one slot.
pub open spec fn one_per_slot(avail: Seq<Token>, dead: Set<u32>) -> bool {
    forall|i: int, j: int|
        0 <= i < j < avail.len() && sure(#[trigger] avail[i], dead) && sure(#[trigger] avail[j], dead) ==> avail[i].slot
            != avail[j].slot
}

/// The slot of a token holds nothing else. A slot emptied in this turn is neither owned nor
/// bound later; one emptied in the turn before has not been bound yet.
pub open spec fn fits(t: Token, env: Env, owned: Set<u32>, later: Set<u32>, dead: Set<u32>) -> bool {
    if t.carried {
        dead.contains(t.slot.0) || !env.contains_key(t.slot.0)
    } else {
        !owned.contains(t.slot.0) && !later.contains(t.slot.0)
    }
}

/// A stack whose slots hold nothing else.
pub open spec fn tidy(avail: Seq<Token>, env: Env, owned: Set<u32>, later: Set<u32>, dead: Set<u32>) -> bool {
    &&& one_per_slot(avail, dead)
    &&& forall|t: Token| #[trigger] avail.contains(t) ==> fits(t, env, owned, later, dead)
}

/// A part of a stack has one token for each slot, if the stack has.
proof fn part_has_one_per_slot(a: Seq<Token>, b: Seq<Token>, dead: Set<u32>)
    requires
        part_of(a, b),
        one_per_slot(b, dead),
    ensures
        one_per_slot(a, dead),
    decreases b.len(),
{
    if a.len() > 0 {
        let b0 = b.drop_last();
        assert(one_per_slot(b0, dead)) by {
            assert forall|i: int, j: int|
                0 <= i < j < b0.len() && sure(#[trigger] b0[i], dead) && sure(#[trigger] b0[j], dead) implies b0[i].slot
                != b0[j].slot by {
                assert(b0[i] == b[i] && b0[j] == b[j]);
            }
        }
        if a.last() == b.last() && part_of(a.drop_last(), b0) {
            let a0 = a.drop_last();
            part_has_one_per_slot(a0, b0, dead);
            assert forall|i: int, j: int|
                0 <= i < j < a.len() && sure(#[trigger] a[i], dead) && sure(#[trigger] a[j], dead) implies a[i].slot
                != a[j].slot by {
                assert(a0[i] == a[i]);
                if j < a0.len() {
                    assert(a0[j] == a[j]);
                } else {
                    assert(a0.contains(a[i]));
                    part_has(a0, b0, a[i]);
                    let m = choose|m: int| 0 <= m < b0.len() && b0[m] == a[i];
                    assert(b[m] == a[i]);
                    assert(b[b.len() - 1] == a[j]);
                    assert(sure(b[m], dead) && sure(b[b.len() - 1], dead));
                }
            }
        } else {
            part_has_one_per_slot(a, b0, dead);
        }
    }
}

/// Taking a token leaves the cells of the others.
proof fn removed(avail: Seq<Token>, i: int, dead: Set<u32>)
    requires
        0 <= i < avail.len(),
        one_per_slot(avail, dead),
        sure(avail[i], dead),
    ensures
        cells(avail, dead).contains((avail[i].slot.0, avail[i].shape.fields)),
        cells(avail.remove(i), dead) == cells(avail, dead).remove((avail[i].slot.0, avail[i].shape.fields)),
{
    let left = avail.remove(i);
    let x = (avail[i].slot.0, avail[i].shape.fields);
    assert(avail.contains(avail[i]));
    assert forall|c: (u32, usize)| cells(left, dead).contains(c) <==> cells(avail, dead).remove(x).contains(c) by {
        if cells(left, dead).contains(c) {
            let t = choose|t: Token| #[trigger] left.contains(t) && sure(t, dead) && t.slot.0 == c.0 && t.shape.fields == c.1;
            let j = choose|j: int| 0 <= j < left.len() && left[j] == t;
            let m = if j < i {
                j
            } else {
                j + 1
            };
            assert(avail[m] == t);
            assert(avail.contains(t));
            assert(sure(avail[m], dead) && sure(avail[i], dead));
            assert(avail[m].slot != avail[i].slot);
        }
        if cells(avail, dead).contains(c) && c != x {
            let t = choose|t: Token| #[trigger] avail.contains(t) && sure(t, dead) && t.slot.0 == c.0 && t.shape.fields == c.1;
            let m = choose|m: int| 0 <= m < avail.len() && avail[m] == t;
            assert(m != i);
            let j = if m < i {
                m
            } else {
                m - 1
            };
            assert(left[j] == t);
            assert(left.contains(t));
        }
    }
    assert(cells(left, dead) =~= cells(avail, dead).remove(x));
}

/// What a part of a stack has parked, the stack has.
proof fn part_cells(a: Seq<Token>, b: Seq<Token>, dead: Set<u32>)
    requires
        forall|t: Token| #[trigger] a.contains(t) ==> b.contains(t),
    ensures
        cells(a, dead).subset_of(cells(b, dead)),
{
    assert forall|c: (u32, usize)| cells(a, dead).contains(c) implies cells(b, dead).contains(c) by {
        let t = choose|t: Token| #[trigger] a.contains(t) && sure(t, dead) && t.slot.0 == c.0 && t.shape.fields == c.1;
        assert(b.contains(t));
    }
}

/// A token is kept where it is of another slot.
proof fn besides_has(avail: Seq<Token>, bind: LocalId, t: Token)
    ensures
        besides(avail, bind).contains(t) <==> avail.contains(t) && t.slot != bind,
{
    let p = |t: Token| t.slot != bind;
    let out = besides(avail, bind);
    if out.contains(t) {
        let i = choose|i: int| 0 <= i < out.len() && out[i] == t;
        avail.lemma_filter_pred(p, i);
        assert(p(out[i]));
        avail.lemma_filter_contains_rev(p, t);
    }
    if avail.contains(t) && t.slot != bind {
        let i = choose|i: int| 0 <= i < avail.len() && avail[i] == t;
        assert(p(avail[i]));
        avail.lemma_filter_contains(p, i);
    }
}

/// Leaving out a slot.
proof fn left_out(avail: Seq<Token>, bind: LocalId, dead: Set<u32>)
    ensures
        cells(besides(avail, bind), dead) == elsewhere(cells(avail, dead), bind),
        part_of(besides(avail, bind), avail),
{
    let out = besides(avail, bind);
    kept_is_part(avail, |t: Token| t.slot != bind);
    assert forall|c: (u32, usize)| cells(out, dead).contains(c) <==> elsewhere(cells(avail, dead), bind).contains(c) by {
        if cells(out, dead).contains(c) {
            let t = choose|t: Token| #[trigger] out.contains(t) && sure(t, dead) && t.slot.0 == c.0 && t.shape.fields == c.1;
            besides_has(avail, bind, t);
        }
        if elsewhere(cells(avail, dead), bind).contains(c) {
            let t = choose|t: Token| #[trigger] avail.contains(t) && sure(t, dead) && t.slot.0 == c.0 && t.shape.fields == c.1;
            besides_has(avail, bind, t);
        }
    }
    assert(cells(out, dead) =~= elsewhere(cells(avail, dead), bind));
}

/// A constructor takes a token of its own shape.
proof fn taking(a: AtomView, avail: Seq<Token>, bind: Option<LocalId>, dead: Set<u32>)
    requires
        one_per_slot(avail, dead),
        overwritten(a) is None,
        bind is Some ==> !dead.contains((bind->0).0),
    ensures
        ({
            let (b, left) = match bind {
                Some(x) => let_take(x, a, avail),
                None => tail_take(a, avail),
            };
            &&& finds(b, cells(avail, dead))
            &&& cells(left, dead) == left_by(b, cells(avail, dead))
            &&& part_of(left, avail)
        }),
{
    part_of_itself(avail);
    match a.shape() {
        Some(want) => {
            picked_is_there(avail, |t: Token| !t.carried && t.shape == want);
            match bind {
                Some(x) => {
                    picked_is_there(avail, |t: Token| t.slot == x && t.shape == want);
                    match let_pick(avail, x, want) {
                        Some(i) => {
                            removed(avail, i, dead);
                            rest_is_part(avail, i);
                        },
                        None => {},
                    }
                },
                None => {
                    match tail_pick(avail, want) {
                        Some(i) => {
                            removed(avail, i, dead);
                            rest_is_part(avail, i);
                        },
                        None => {},
                    }
                },
            }
        },
        None => {},
    }
}

/// The slots that a stack has emptied in this turn.
pub open spec fn fresh_slots(avail: Seq<Token>) -> Set<u32> {
    Set::new(|n: u32| exists|t: Token| #[trigger] avail.contains(t) && !t.carried && t.slot.0 == n)
}

/// The tokens of a stack from the turn before.
pub open spec fn carried_in(avail: Seq<Token>) -> Set<Token> {
    Set::new(|t: Token| avail.contains(t) && t.carried)
}

/// The slots that may be parked in this turn when a walk of `e` ends.
pub open spec fn reach(e: Term, avail: Seq<Token>, env: Env) -> Set<u32> {
    fresh_slots(avail).union(env.dom()).union(binders(e))
}

/// A stack at a `Tail`: one token for each slot, those of this turn of slots of `within` that
/// `after` does not own, and those of the turn before of `from`.
pub open spec fn leaves_tidy(q: Seq<Token>, after: Set<u32>, within: Set<u32>, from: Set<Token>, dead: Set<u32>) -> bool {
    &&& one_per_slot(q, dead)
    &&& forall|t: Token| #[trigger]
        q.contains(t) ==> if t.carried {
            from.contains(t)
        } else {
            !after.contains(t.slot.0) && within.contains(t.slot.0)
        }
}

/// The stacks added to `x0` are tidy.
pub open spec fn adds_tidy(
    x0: Option<Seq<Seq<Token>>>,
    x1: Option<Seq<Seq<Token>>>,
    after: Set<u32>,
    within: Set<u32>,
    from: Set<Token>,
    dead: Set<u32>,
) -> bool {
    match (x0, x1) {
        (Some(p), Some(q)) => {
            &&& p.len() <= q.len()
            &&& forall|i: int| 0 <= i < p.len() ==> q[i] == #[trigger] p[i]
            &&& forall|i: int| p.len() <= i < q.len() ==> leaves_tidy(#[trigger] q[i], after, within, from, dead)
        },
        (None, None) => true,
        _ => false,
    }
}

/// The stacks added to `t0` have one token for each slot.
pub open spec fn adds_single(t0: Seq<Seq<Token>>, t1: Seq<Seq<Token>>, dead: Set<u32>) -> bool {
    &&& t0.len() <= t1.len()
    &&& forall|i: int| 0 <= i < t0.len() ==> t1[i] == #[trigger] t0[i]
    &&& forall|i: int| t0.len() <= i < t1.len() ==> one_per_slot(#[trigger] t1[i], dead)
}

proof fn adding_more(
    x0: Option<Seq<Seq<Token>>>,
    x1: Option<Seq<Seq<Token>>>,
    x2: Option<Seq<Seq<Token>>>,
    after: Set<u32>,
    a: Set<u32>,
    b: Set<u32>,
    within: Set<u32>,
    fa: Set<Token>,
    fb: Set<Token>,
    from: Set<Token>,
    dead: Set<u32>,
)
    requires
        adds_tidy(x0, x1, after, a, fa, dead),
        adds_tidy(x1, x2, after, b, fb, dead),
        a.subset_of(within),
        b.subset_of(within),
        fa.subset_of(from),
        fb.subset_of(from),
    ensures
        adds_tidy(x0, x2, after, within, from, dead),
{
    match (x0, x1, x2) {
        (Some(p), Some(q), Some(r)) => {
            assert forall|i: int| 0 <= i < p.len() implies r[i] == #[trigger] p[i] by {
                assert(q[i] == p[i]);
                assert(r[i] == q[i]);
            }
            assert forall|i: int| p.len() <= i < r.len() implies leaves_tidy(#[trigger] r[i], after, within, from, dead) by {
                if i < q.len() {
                    assert(r[i] == q[i]);
                    assert(leaves_tidy(q[i], after, a, fa, dead));
                } else {
                    assert(leaves_tidy(r[i], after, b, fb, dead));
                }
            }
        },
        _ => {},
    }
}

proof fn adding_more_single(t0: Seq<Seq<Token>>, t1: Seq<Seq<Token>>, t2: Seq<Seq<Token>>, dead: Set<u32>)
    requires
        adds_single(t0, t1, dead),
        adds_single(t1, t2, dead),
    ensures
        adds_single(t0, t2, dead),
{
    assert forall|i: int| 0 <= i < t0.len() implies t2[i] == #[trigger] t0[i] by {
        assert(t1[i] == t0[i]);
        assert(t2[i] == t1[i]);
    }
    assert forall|i: int| t0.len() <= i < t2.len() implies one_per_slot(#[trigger] t2[i], dead) by {
        if i < t1.len() {
            assert(t2[i] == t1[i]);
            assert(one_per_slot(t1[i], dead));
        }
    }
}

/// What a `Tail` leaves owned.
pub open spec fn after_exit(exit: ExitView) -> Set<u32> {
    match exit {
        ExitView::Return => Set::empty(),
        ExitView::Join { ty, after } => after,
    }
}

/// The slots that a `Let` of `e` fills.
pub open spec fn lets(e: Term) -> Set<u32>
    decreases e,
{
    match e {
        Term::Let { bind, rhs, body } => lets(*body).insert(bind.id.0),
        Term::LetJoin { bind, join, body } => lets(*join).union(lets(*body)),
        Term::LetCont { id, cont, body } => lets(*cont).union(lets(*body)),
        Term::Drop { local, shape, body } => lets(*body),
        Term::Tail(a) => Set::empty(),
        Term::Goto(id) => Set::empty(),
        Term::If { cond, yes, no, ty } => lets(*yes).union(lets(*no)),
        Term::Match { scrut, arms, ty } => arms_lets(arms),
    }
}

/// The slots that a `Let` of some arms fills.
pub open spec fn arms_lets(arms: Seq<(PatView, Term)>) -> Set<u32>
    decreases arms,
{
    if arms.len() == 0 {
        Set::empty()
    } else {
        arms_lets(arms.drop_last()).union(lets(arms.last().1))
    }
}

/// The slots that a pattern of `e` fills.
pub open spec fn matched(e: Term) -> Set<u32>
    decreases e,
{
    match e {
        Term::Let { bind, rhs, body } => matched(*body),
        Term::LetJoin { bind, join, body } => matched(*join).union(matched(*body)),
        Term::LetCont { id, cont, body } => matched(*cont).union(matched(*body)),
        Term::Drop { local, shape, body } => matched(*body),
        Term::Tail(a) => Set::empty(),
        Term::Goto(id) => Set::empty(),
        Term::If { cond, yes, no, ty } => matched(*yes).union(matched(*no)),
        Term::Match { scrut, arms, ty } => arms_matched(arms),
    }
}

/// The slots that a pattern of some arms, or in them, fills.
pub open spec fn arms_matched(arms: Seq<(PatView, Term)>) -> Set<u32>
    decreases arms,
{
    if arms.len() == 0 {
        Set::empty()
    } else {
        arms_matched(arms.drop_last()).union(bound_set(arms.last().0)).union(matched(arms.last().1))
    }
}

/// No slot is filled both by a `Let` and by a pattern.
proof fn filled_in_one_way(e: Term)
    requires
        bound_once(e),
    ensures
        lets(e).subset_of(binders(e)),
        matched(e).subset_of(binders(e)),
        lets(e).disjoint(matched(e)),
    decreases e,
{
    match e {
        Term::Let { bind, rhs, body } => {
            filled_in_one_way(*body);
        },
        Term::LetJoin { bind, join, body } => {
            filled_in_one_way(*join);
            filled_in_one_way(*body);
        },
        Term::LetCont { id, cont, body } => {
            filled_in_one_way(*cont);
            filled_in_one_way(*body);
        },
        Term::Drop { local, shape, body } => {
            filled_in_one_way(*body);
        },
        Term::Tail(a) => {},
        Term::Goto(id) => {},
        Term::If { cond, yes, no, ty } => {
            filled_in_one_way(*yes);
            filled_in_one_way(*no);
        },
        Term::Match { scrut, arms, ty } => {
            arms_filled_in_one_way(arms);
        },
    }
}

proof fn arms_filled_in_one_way(arms: Seq<(PatView, Term)>)
    requires
        arms_bound_once(arms),
    ensures
        arms_lets(arms).subset_of(arms_binders(arms)),
        arms_matched(arms).subset_of(arms_binders(arms)),
        arms_lets(arms).disjoint(arms_matched(arms)),
    decreases arms,
{
    if arms.len() > 0 {
        arms_filled_in_one_way(arms.drop_last());
        filled_in_one_way(arms.last().1);
    }
}

/// A balanced body that binds each local once, where a stack is parked whose slots
/// hold nothing else. `dead` are slots that patterns fill, and none that a `Let` does.
pub open spec fn walkable(
    pool: ResolvedPool,
    e: Term,
    avail: Seq<Token>,
    env: Env,
    owned: Set<u32>,
    conts: Map<u32, Set<u32>>,
    exit: ExitView,
    dead: Set<u32>,
) -> bool {
    &&& owns(pool, e, env, owned, conts, exit)
    &&& owned.subset_of(env.dom())
    &&& matched(e).subset_of(dead)
    &&& lets(e).disjoint(dead)
    &&& binders(e).disjoint(env.dom())
    &&& bound_once(e)
    &&& reuse_free(e)
    &&& tidy(avail, env, owned, binders(e), dead)
}

/// What comes after a node is walkable, and reaches no slot that the node does not.
proof fn drop_step(
    pool: ResolvedPool,
    e: Term,
    avail: Seq<Token>,
    env: Env,
    owned: Set<u32>,
    conts: Map<u32, Set<u32>>,
    exit: ExitView,
    dead: Set<u32>,
)
    requires
        e is Drop,
        walkable(pool, e, avail, env, owned, conts, exit, dead),
    ensures
        ({
            let body = *e->Drop_body;
            let next = parked(avail, e->local, e->shape);
            &&& walkable(pool, body, next, env, owned.remove(e->local.0), conts, exit, dead)
            &&& reach(body, next, env).subset_of(reach(e, avail, env))
            &&& carried_in(next).subset_of(carried_in(avail))
            &&& cells(next, dead) == with_parked(cells(avail, dead), e->local, e->shape)
        }),
{
    let local = e->local;
    let body = *e->Drop_body;
    let next = parked(avail, local, e->shape);
    assert(env.dom().contains(local.0));
    match e->shape {
        Some(s) => if s.fields > 0 {
            let new = Token { slot: local, shape: s, carried: false };
            assert forall|t: Token| next.contains(t) <==> avail.contains(t) || t == new by {
                if next.contains(t) {
                    let i = choose|i: int| 0 <= i < next.len() && next[i] == t;
                    if i < avail.len() {
                        assert(avail[i] == t);
                    }
                }
                if avail.contains(t) {
                    let i = choose|i: int| 0 <= i < avail.len() && avail[i] == t;
                    assert(next[i] == t);
                }
                assert(next[avail.len() as int] == new);
            }
            assert(one_per_slot(next, dead)) by {
                assert forall|i: int, j: int|
                    0 <= i < j < next.len() && sure(#[trigger] next[i], dead) && sure(#[trigger] next[j], dead) implies next[i].slot
                    != next[j].slot by {
                    assert(next[i] == avail[i]);
                    if j == avail.len() {
                        assert(avail.contains(avail[i]));
                        assert(fits(avail[i], env, owned, binders(e), dead));
                    } else {
                        assert(next[j] == avail[j]);
                    }
                }
            }
            assert forall|t: Token| #[trigger] next.contains(t) implies fits(t, env, owned.remove(local.0), binders(body), dead) by {
                if avail.contains(t) {
                    assert(fits(t, env, owned, binders(e), dead));
                }
            }
            let x = (local.0, s.fields);
            assert forall|c: (u32, usize)| cells(next, dead).contains(c) <==> cells(avail, dead).insert(x).contains(c) by {
                if cells(next, dead).contains(c) {
                    let t = choose|t: Token| #[trigger]
                        next.contains(t) && sure(t, dead) && t.slot.0 == c.0 && t.shape.fields == c.1;
                    assert(avail.contains(t) || t == new);
                }
                if cells(avail, dead).contains(c) {
                    let t = choose|t: Token| #[trigger]
                        avail.contains(t) && sure(t, dead) && t.slot.0 == c.0 && t.shape.fields == c.1;
                    assert(next.contains(t));
                }
                assert(next.contains(new));
            }
            assert(cells(next, dead) =~= with_parked(cells(avail, dead), local, e->shape));
            assert forall|n: u32| fresh_slots(next).contains(n) implies reach(e, avail, env).contains(n) by {
                let t = choose|t: Token| #[trigger] next.contains(t) && !t.carried && t.slot.0 == n;
                if avail.contains(t) {
                    assert(fresh_slots(avail).contains(n));
                }
            }
            assert(tidy(next, env, owned.remove(local.0), binders(body), dead));
        } else {
            same_stack_step(avail, env, owned, binders(e), dead, local);
        },
        None => {
            same_stack_step(avail, env, owned, binders(e), dead, local);
        },
    }
}

/// A stack stays tidy when less is owned.
proof fn same_stack_step(avail: Seq<Token>, env: Env, owned: Set<u32>, later: Set<u32>, dead: Set<u32>, local: LocalId)
    requires
        tidy(avail, env, owned, later, dead),
    ensures
        tidy(avail, env, owned.remove(local.0), later, dead),
{
    assert forall|t: Token| #[trigger] avail.contains(t) implies fits(t, env, owned.remove(local.0), later, dead) by {
        assert(fits(t, env, owned, later, dead));
    }
}

proof fn let_step(
    pool: ResolvedPool,
    e: Term,
    avail: Seq<Token>,
    env: Env,
    owned: Set<u32>,
    conts: Map<u32, Set<u32>>,
    exit: ExitView,
    dead: Set<u32>,
)
    requires
        e is Let,
        walkable(pool, e, avail, env, owned, conts, exit, dead),
    ensures
        ({
            let bind = e->Let_bind;
            let body = *e->Let_body;
            let (rhs, left) = let_take(bind.id, e->rhs, avail);
            let next = besides(left, bind.id);
            let env1 = with_bind(env, bind);
            &&& walkable(pool, body, next, env1, owned.union(brought(pool, bind)), conts, exit, dead)
            &&& reach(body, next, env1).subset_of(reach(e, avail, env))
            &&& carried_in(next).subset_of(carried_in(avail))
            &&& finds(rhs, cells(avail, dead))
            &&& cells(next, dead) == elsewhere(left_by(rhs, cells(avail, dead)), bind.id)
        }),
{
    let bind = e->Let_bind;
    let body = *e->Let_body;
    let left = let_take(bind.id, e->rhs, avail).1;
    let next = besides(left, bind.id);
    assert(lets(e).contains(bind.id.0));
    taking(e->rhs, avail, Some(bind.id), dead);
    left_out(left, bind.id, dead);
    let env1 = with_bind(env, bind);
    let owned1 = owned.union(brought(pool, bind));
    part_has_one_per_slot(left, avail, dead);
    part_has_one_per_slot(next, left, dead);
    assert forall|t: Token| next.contains(t) implies avail.contains(t) && t.slot != bind.id by {
        besides_has(left, bind.id, t);
        part_has(left, avail, t);
    }
    assert forall|n: u32| binders(body).contains(n) implies !env1.dom().contains(n) by {
        assert(binders(e).contains(n));
    }
    assert(binders(body).disjoint(env1.dom()));
    assert forall|t: Token| #[trigger] next.contains(t) implies fits(t, env1, owned1, binders(body), dead) by {
        assert(avail.contains(t));
        assert(fits(t, env, owned, binders(e), dead));
    }
    assert(tidy(next, env1, owned1, binders(body), dead));
    assert forall|n: u32| fresh_slots(next).contains(n) implies fresh_slots(avail).contains(n) by {
        let t = choose|t: Token| #[trigger] next.contains(t) && !t.carried && t.slot.0 == n;
        assert(avail.contains(t));
    }
}

/// The code after a join, given what is parked at each of its exits.
proof fn join_step(
    pool: ResolvedPool,
    e: Term,
    avail: Seq<Token>,
    env: Env,
    owned: Set<u32>,
    conts: Map<u32, Set<u32>>,
    exit: ExitView,
    after: Set<u32>,
    inner: Seq<Seq<Token>>,
    dead: Set<u32>,
)
    requires
        e is LetJoin,
        walkable(pool, e, avail, env, owned, conts, exit, dead),
        after.subset_of(env.dom()),
        !after.contains(e->LetJoin_bind.id.0),
        owns(
            pool,
            *e->LetJoin_body,
            with_bind(env, e->LetJoin_bind),
            after.union(brought(pool, e->LetJoin_bind)),
            conts,
            exit,
        ),
        adds_tidy(Some(Seq::empty()), Some(inner), after, reach(*e->join, avail, env), carried_in(avail), dead),
    ensures
        ({
            let bind = e->LetJoin_bind;
            let body = *e->LetJoin_body;
            let next = besides(on_all(inner), bind.id);
            let env1 = with_bind(env, bind);
            &&& walkable(pool, body, next, env1, after.union(brought(pool, bind)), conts, exit, dead)
            &&& reach(body, next, env1).subset_of(reach(e, avail, env))
            &&& carried_in(next).subset_of(carried_in(avail))
            &&& forall|i: int|
                0 <= i < inner.len() ==> cells(next, dead).subset_of(elsewhere(cells(#[trigger] inner[i], dead), bind.id))
        }),
{
    let bind = e->LetJoin_bind;
    let join = *e->join;
    let body = *e->LetJoin_body;
    let env1 = with_bind(env, bind);
    let owned1 = after.union(brought(pool, bind));
    let common = on_all(inner);
    let next = besides(common, bind.id);
    assert forall|n: u32| binders(body).contains(n) || binders(join).contains(n) implies binders(e).contains(n) by {}
    assert(binders(body).disjoint(env1.dom()));
    left_out(common, bind.id, dead);
    if inner.len() > 0 {
        assert(leaves_tidy(inner[0], after, reach(join, avail, env), carried_in(avail), dead));
        kept_is_part(inner[0], |t: Token| on_each(inner, t));
        part_has_one_per_slot(common, inner[0], dead);
    }
    part_has_one_per_slot(next, common, dead);
    assert forall|t: Token| next.contains(t) implies t.slot != bind.id && inner.len() > 0 && inner[0].contains(t) by {
        besides_has(common, bind.id, t);
        if inner.len() > 0 {
            common_is_on_each(inner, t, 0);
        }
    }
    assert forall|t: Token| #[trigger] next.contains(t) implies fits(t, env1, owned1, binders(body), dead) by {
        assert(inner[0].contains(t));
        if t.carried {
            assert(carried_in(avail).contains(t));
            assert(fits(t, env, owned, binders(e), dead));
        } else {
            assert(reach(join, avail, env).contains(t.slot.0));
            if fresh_slots(avail).contains(t.slot.0) {
                let u = choose|u: Token| #[trigger] avail.contains(u) && !u.carried && u.slot.0 == t.slot.0;
                assert(fits(u, env, owned, binders(e), dead));
            }
        }
    }
    assert(tidy(next, env1, owned1, binders(body), dead));
    assert forall|n: u32| fresh_slots(next).contains(n) implies reach(e, avail, env).contains(n) by {
        let t = choose|t: Token| #[trigger] next.contains(t) && !t.carried && t.slot.0 == n;
        assert(inner[0].contains(t));
        assert(reach(join, avail, env).contains(n));
    }
    assert forall|t: Token| carried_in(next).contains(t) implies carried_in(avail).contains(t) by {
        assert(inner[0].contains(t));
    }
    assert forall|i: int| 0 <= i < inner.len() implies cells(next, dead).subset_of(
        elsewhere(cells(#[trigger] inner[i], dead), bind.id),
    ) by {
        assert forall|t: Token| #[trigger] common.contains(t) implies inner[i].contains(t) by {
            common_is_on_each(inner, t, i);
        }
        part_cells(common, inner[i], dead);
    }
}

/// Every stack that a walk meets at a `Tail` is tidy.
proof fn exits_are_tidy(
    pool: ResolvedPool,
    e: Term,
    avail: Seq<Token>,
    tails: Seq<Seq<Token>>,
    exits: Option<Seq<Seq<Token>>>,
    env: Env,
    owned: Set<u32>,
    conts: Map<u32, Set<u32>>,
    exit: ExitView,
    dead: Set<u32>,
)
    requires
        walkable(pool, e, avail, env, owned, conts, exit, dead),
        (exits is Some) == (exit is Join),
    ensures
        adds_tidy(
            exits,
            paired(e, avail, tails, exits).exits,
            after_exit(exit),
            reach(e, avail, env),
            carried_in(avail),
            dead,
        ),
        adds_single(tails, paired(e, avail, tails, exits).tails, dead),
    decreases e,
{
    let w = reach(e, avail, env);
    let f = carried_in(avail);
    let after = after_exit(exit);
    let p = paired(e, avail, tails, exits);
    match e {
        Term::Drop { local, shape, body } => {
            drop_step(pool, e, avail, env, owned, conts, exit, dead);
            let next = parked(avail, local, shape);
            exits_are_tidy(pool, *body, next, tails, exits, env, owned.remove(local.0), conts, exit, dead);
            adding_more(exits, exits, p.exits, after, w, reach(*body, next, env), w, f, carried_in(next), f, dead);
        },
        Term::Let { bind, rhs, body } => {
            let_step(pool, e, avail, env, owned, conts, exit, dead);
            let next = besides(let_take(bind.id, rhs, avail).1, bind.id);
            let env1 = with_bind(env, bind);
            exits_are_tidy(pool, *body, next, tails, exits, env1, owned.union(brought(pool, bind)), conts, exit, dead);
            adding_more(exits, exits, p.exits, after, w, reach(*body, next, env1), w, f, carried_in(next), f, dead);
        },
        Term::LetJoin { bind, join, body } => {
            let left = choose|after: Set<u32>|
                {
                    &&& #[trigger] is_slots(after)
                    &&& after.subset_of(env.dom())
                    &&& owns(pool, *join, env, owned, conts, ExitView::Join { ty: bind.ty, after })
                    &&& !after.contains(bind.id.0)
                    &&& owns(pool, *body, with_bind(env, bind), after.union(brought(pool, bind)), conts, exit)
                };
            let out = ExitView::Join { ty: bind.ty, after: left };
            let none: Option<Seq<Seq<Token>>> = Some(Seq::empty());
            assert(binders(*join).subset_of(binders(e)));
            later_less(avail, env, owned, binders(e), binders(*join), dead);
            exits_are_tidy(pool, *join, avail, tails, none, env, owned, conts, out, dead);
            let inner = paired(*join, avail, tails, none);
            join_step(pool, e, avail, env, owned, conts, exit, left, inner.exits->0, dead);
            let next = besides(on_all(inner.exits->0), bind.id);
            let env1 = with_bind(env, bind);
            exits_are_tidy(pool, *body, next, inner.tails, exits, env1, left.union(brought(pool, bind)), conts, exit, dead);
            adding_more(exits, exits, p.exits, after, w, reach(*body, next, env1), w, f, carried_in(next), f, dead);
            adding_more_single(tails, inner.tails, p.tails, dead);
        },
        Term::LetCont { id, cont, body } => {
            let needs = choose|needs: Set<u32>|
                {
                    &&& #[trigger] is_slots(needs)
                    &&& needs.subset_of(env.dom())
                    &&& owns(pool, *cont, env, needs, conts, exit)
                    &&& owns(pool, *body, env, owned, conts.insert(id.0, needs), exit)
                };
            assert(binders(*cont).subset_of(binders(e)));
            assert(binders(*body).subset_of(binders(e)));
            let none = Seq::<Token>::empty();
            later_less(avail, env, owned, binders(e), binders(*body), dead);
            exits_are_tidy(pool, *cont, none, tails, exits, env, needs, conts, exit, dead);
            let shared = paired(*cont, none, tails, exits);
            exits_stay(*cont, none, tails, exits);
            exits_are_tidy(pool, *body, avail, shared.tails, shared.exits, env, owned, conts.insert(id.0, needs), exit, dead);
            adding_more(
                exits,
                shared.exits,
                p.exits,
                after,
                reach(*cont, none, env),
                reach(*body, avail, env),
                w,
                carried_in(none),
                f,
                f,
                dead,
            );
            adding_more_single(tails, shared.tails, p.tails, dead);
        },
        Term::If { cond, yes, no, ty } => {
            assert(binders(*yes).subset_of(binders(e)));
            assert(binders(*no).subset_of(binders(e)));
            later_less(avail, env, owned, binders(e), binders(*yes), dead);
            later_less(avail, env, owned, binders(e), binders(*no), dead);
            exits_are_tidy(pool, *yes, avail, tails, exits, env, owned, conts, exit, dead);
            let t = paired(*yes, avail, tails, exits);
            exits_stay(*yes, avail, tails, exits);
            exits_are_tidy(pool, *no, avail, t.tails, t.exits, env, owned, conts, exit, dead);
            adding_more(
                exits,
                t.exits,
                p.exits,
                after,
                reach(*yes, avail, env),
                reach(*no, avail, env),
                w,
                f,
                f,
                f,
                dead,
            );
            adding_more_single(tails, t.tails, p.tails, dead);
        },
        Term::Match { scrut, arms, ty } => {
            assert(arms_own(pool, arms, env, owned, conts, exit));
            arms_exits_are_tidy(pool, arms, avail, tails, exits, env, owned, conts, exit, dead);
        },
        Term::Tail(a) => {
            taking(a, avail, None, dead);
            let left = tail_take(a, avail).1;
            part_has_one_per_slot(left, avail, dead);
            assert forall|t: Token| #[trigger] left.contains(t) implies if t.carried {
                f.contains(t)
            } else {
                !after.contains(t.slot.0) && w.contains(t.slot.0)
            } by {
                part_has(left, avail, t);
                assert(fits(t, env, owned, binders(e), dead));
                if !t.carried {
                    assert(fresh_slots(avail).contains(t.slot.0));
                }
            }
            assert(leaves_tidy(left, after, w, f, dead));
        },
        Term::Goto(id) => {},
    }
}

/// A stack stays tidy when less is bound later.
proof fn later_less(avail: Seq<Token>, env: Env, owned: Set<u32>, later: Set<u32>, less: Set<u32>, dead: Set<u32>)
    requires
        tidy(avail, env, owned, later, dead),
        less.subset_of(later),
    ensures
        tidy(avail, env, owned, less, dead),
{
    assert forall|t: Token| #[trigger] avail.contains(t) implies fits(t, env, owned, less, dead) by {
        assert(fits(t, env, owned, later, dead));
    }
}

/// Some arms, each of which is walkable.
pub open spec fn arms_walkable(
    pool: ResolvedPool,
    arms: Seq<(PatView, Term)>,
    avail: Seq<Token>,
    env: Env,
    owned: Set<u32>,
    conts: Map<u32, Set<u32>>,
    exit: ExitView,
    dead: Set<u32>,
) -> bool {
    &&& arms_own(pool, arms, env, owned, conts, exit)
    &&& owned.subset_of(env.dom())
    &&& arms_matched(arms).subset_of(dead)
    &&& arms_lets(arms).disjoint(dead)
    &&& arms_binders(arms).disjoint(env.dom())
    &&& arms_bound_once(arms)
    &&& arms_reuse_free(arms)
    &&& tidy(avail, env, owned, arms_binders(arms), dead)
}

proof fn arms_step(
    pool: ResolvedPool,
    arms: Seq<(PatView, Term)>,
    avail: Seq<Token>,
    env: Env,
    owned: Set<u32>,
    conts: Map<u32, Set<u32>>,
    exit: ExitView,
    dead: Set<u32>,
)
    requires
        arms.len() > 0,
        arms_walkable(pool, arms, avail, env, owned, conts, exit, dead),
    ensures
        arms_walkable(pool, arms.drop_last(), avail, env, owned, conts, exit, dead),
        ({
            let (pat, body) = arms.last();
            let env1 = with_binds(env, pat.binds());
            let owned1 = owned.union(held(pool, env1, bound_set(pat)));
            &&& walkable(pool, body, avail, env1, owned1, conts, exit, dead)
            &&& reach(body, avail, env1).subset_of(fresh_slots(avail).union(env.dom()).union(arms_binders(arms)))
        }),
        arms_binders(arms.drop_last()).subset_of(arms_binders(arms)),
{
    let rest = arms.drop_last();
    let (pat, body) = arms.last();
    assert(arms.last() == arms[arms.len() - 1]);
    let env1 = with_binds(env, pat.binds());
    with_binds_facts(env, pat.binds(), arbitrary());
    assert forall|i: int| 0 <= i < rest.len() implies rest[i] == #[trigger] arms[i] by {}
    assert(arms_own(pool, rest, env, owned, conts, exit)) by {
        assert forall|i: int| 0 <= i < rest.len() implies bound_set(rest[i].0).disjoint(env.dom()) && owns(
            pool,
            (#[trigger] rest[i]).1,
            with_binds(env, rest[i].0.binds()),
            owned.union(held(pool, with_binds(env, rest[i].0.binds()), bound_set(rest[i].0))),
            conts,
            exit,
        ) by {
            assert(rest[i] == arms[i]);
        }
    }
    assert(arms_binders(rest).subset_of(arms_binders(arms)));
    assert(bound_set(pat).subset_of(arms_binders(arms)));
    assert(binders(body).subset_of(arms_binders(arms)));
    later_less(avail, env, owned, arms_binders(arms), arms_binders(rest), dead);
    assert forall|n: u32| env1.dom().contains(n) <==> env.dom().contains(n) || bound_set(pat).contains(n) by {
        assert(env1.contains_key(n) <==> env.contains_key(n) || bound_set(pat).contains(n));
    }
    let owned1 = owned.union(held(pool, env1, bound_set(pat)));
    assert(owned1.subset_of(env1.dom()));
    assert(binders(body).disjoint(env1.dom()));
    assert forall|t: Token| #[trigger] avail.contains(t) implies fits(t, env1, owned1, binders(body), dead) by {
        assert(fits(t, env, owned, arms_binders(arms), dead));
        if t.carried && bound_set(pat).contains(t.slot.0) {
            assert(arms_matched(arms).contains(t.slot.0));
        }
        if !t.carried && owned1.contains(t.slot.0) {
            assert(bound_set(pat).contains(t.slot.0));
        }
    }
    assert(tidy(avail, env1, owned1, binders(body), dead));
}

proof fn arms_exits_are_tidy(
    pool: ResolvedPool,
    arms: Seq<(PatView, Term)>,
    avail: Seq<Token>,
    tails: Seq<Seq<Token>>,
    exits: Option<Seq<Seq<Token>>>,
    env: Env,
    owned: Set<u32>,
    conts: Map<u32, Set<u32>>,
    exit: ExitView,
    dead: Set<u32>,
)
    requires
        arms_walkable(pool, arms, avail, env, owned, conts, exit, dead),
        (exits is Some) == (exit is Join),
    ensures
        adds_tidy(
            exits,
            paired_arms(arms, avail, tails, exits).exits,
            after_exit(exit),
            fresh_slots(avail).union(env.dom()).union(arms_binders(arms)),
            carried_in(avail),
            dead,
        ),
        adds_single(tails, paired_arms(arms, avail, tails, exits).tails, dead),
    decreases arms,
{
    if arms.len() > 0 {
        let rest = arms.drop_last();
        let (pat, body) = arms.last();
        let env1 = with_binds(env, pat.binds());
        let owned1 = owned.union(held(pool, env1, bound_set(pat)));
        arms_step(pool, arms, avail, env, owned, conts, exit, dead);
        arms_exits_are_tidy(pool, rest, avail, tails, exits, env, owned, conts, exit, dead);
        let before = paired_arms(rest, avail, tails, exits);
        arms_exits_stay(rest, avail, tails, exits);
        exits_are_tidy(pool, body, avail, before.tails, before.exits, env1, owned1, conts, exit, dead);
        let all = paired_arms(arms, avail, tails, exits);
        let f = carried_in(avail);
        adding_more(
            exits,
            before.exits,
            all.exits,
            after_exit(exit),
            fresh_slots(avail).union(env.dom()).union(arms_binders(rest)),
            reach(body, avail, env1),
            fresh_slots(avail).union(env.dom()).union(arms_binders(arms)),
            f,
            f,
            f,
            dead,
        );
        adding_more_single(tails, before.tails, all.tails, dead);
    }
}

/// The code after the open joins finds what it overwrites, from each stack added to
/// `x0`.
pub open spec fn added_resume(
    x0: Option<Seq<Seq<Token>>>,
    x1: Option<Seq<Seq<Token>>>,
    k: Rests,
    s: Parked,
    dead: Set<u32>,
) -> bool {
    match (x0, x1) {
        (Some(p), Some(q)) => k.len() > 0 && forall|i: int|
            p.len() <= i < q.len() ==> resumes(cells(#[trigger] q[i], dead), k, s),
        _ => k.len() == 0,
    }
}

/// Each stack added to `t0` has `s` parked.
pub open spec fn added_park(t0: Seq<Seq<Token>>, t1: Seq<Seq<Token>>, s: Parked, dead: Set<u32>) -> bool {
    forall|i: int| t0.len() <= i < t1.len() ==> s.subset_of(cells(#[trigger] t1[i], dead))
}

/// A walk that starts with a tidy stack lets a constructor overwrite only a cell
/// that is parked there on every path, in the constructor's own size. What is parked at every
/// self tail call of the walk is parked there in the body.
pub proof fn reuse_is_frame_limited(
    pool: ResolvedPool,
    e: Term,
    avail: Seq<Token>,
    tails: Seq<Seq<Token>>,
    exits: Option<Seq<Seq<Token>>>,
    env: Env,
    owned: Set<u32>,
    conts: Map<u32, Set<u32>>,
    exit: ExitView,
    k: Rests,
    s: Parked,
    dead: Set<u32>,
)
    requires
        walkable(pool, e, avail, env, owned, conts, exit, dead),
        (exits is Some) == (exit is Join),
        added_resume(exits, paired(e, avail, tails, exits).exits, k, s, dead),
        added_park(tails, paired(e, avail, tails, exits).tails, s, dead),
    ensures
        overwrites_parked(paired(e, avail, tails, exits).term, cells(avail, dead), k, s),
    decreases e,
{
    let p = paired(e, avail, tails, exits);
    match e {
        Term::Drop { local, shape, body } => {
            drop_step(pool, e, avail, env, owned, conts, exit, dead);
            let next = parked(avail, local, shape);
            reuse_is_frame_limited(pool, *body, next, tails, exits, env, owned.remove(local.0), conts, exit, k, s, dead);
        },
        Term::Let { bind, rhs, body } => {
            let_step(pool, e, avail, env, owned, conts, exit, dead);
            let next = besides(let_take(bind.id, rhs, avail).1, bind.id);
            let env1 = with_bind(env, bind);
            let owned1 = owned.union(brought(pool, bind));
            reuse_is_frame_limited(pool, *body, next, tails, exits, env1, owned1, conts, exit, k, s, dead);
        },
        Term::LetJoin { bind, join, body } => {
            let left = choose|after: Set<u32>|
                {
                    &&& #[trigger] is_slots(after)
                    &&& after.subset_of(env.dom())
                    &&& owns(pool, *join, env, owned, conts, ExitView::Join { ty: bind.ty, after })
                    &&& !after.contains(bind.id.0)
                    &&& owns(pool, *body, with_bind(env, bind), after.union(brought(pool, bind)), conts, exit)
                };
            let out = ExitView::Join { ty: bind.ty, after: left };
            let none: Option<Seq<Seq<Token>>> = Some(Seq::empty());
            assert(binders(*join).subset_of(binders(e)));
            later_less(avail, env, owned, binders(e), binders(*join), dead);
            exits_are_tidy(pool, *join, avail, tails, none, env, owned, conts, out, dead);
            let inner = paired(*join, avail, tails, none);
            let lists = inner.exits->0;
            join_step(pool, e, avail, env, owned, conts, exit, left, lists, dead);
            let next = besides(on_all(lists), bind.id);
            let env1 = with_bind(env, bind);
            let owned1 = left.union(brought(pool, bind));
            exits_are_tidy(pool, *body, next, inner.tails, exits, env1, owned1, conts, exit, dead);
            split_park(tails, inner.tails, p.tails, s, dead);
            reuse_is_frame_limited(pool, *body, next, inner.tails, exits, env1, owned1, conts, exit, k, s, dead);
            let rest = paired(*body, next, inner.tails, exits).term;
            let k2 = k.push((bind.id, rest));
            assert(k2.drop_last() =~= k);
            assert forall|i: int| 0 <= i < lists.len() implies resumes(cells(#[trigger] lists[i], dead), k2, s) by {
                more_is_no_harm(rest, cells(next, dead), elsewhere(cells(lists[i], dead), bind.id), k, s);
            }
            reuse_is_frame_limited(pool, *join, avail, tails, none, env, owned, conts, out, k2, s, dead);
        },
        Term::LetCont { id, cont, body } => {
            let needs = choose|needs: Set<u32>|
                {
                    &&& #[trigger] is_slots(needs)
                    &&& needs.subset_of(env.dom())
                    &&& owns(pool, *cont, env, needs, conts, exit)
                    &&& owns(pool, *body, env, owned, conts.insert(id.0, needs), exit)
                };
            assert(binders(*cont).subset_of(binders(e)));
            assert(binders(*body).subset_of(binders(e)));
            later_less(avail, env, owned, binders(e), binders(*body), dead);
            let none = Seq::<Token>::empty();
            assert(cells(none, dead) =~= Set::empty());
            let more = conts.insert(id.0, needs);
            let shared = paired(*cont, none, tails, exits);
            exits_stay(*cont, none, tails, exits);
            exits_are_tidy(pool, *cont, none, tails, exits, env, needs, conts, exit, dead);
            exits_are_tidy(pool, *body, avail, shared.tails, shared.exits, env, owned, more, exit, dead);
            split_resume(exits, shared.exits, p.exits, k, s, after_exit(exit), reach(*cont, none, env), reach(*body, avail, env), carried_in(none), carried_in(avail), dead);
            split_park(tails, shared.tails, p.tails, s, dead);
            reuse_is_frame_limited(pool, *cont, none, tails, exits, env, needs, conts, exit, k, s, dead);
            reuse_is_frame_limited(pool, *body, avail, shared.tails, shared.exits, env, owned, more, exit, k, s, dead);
        },
        Term::If { cond, yes, no, ty } => {
            assert(binders(*yes).subset_of(binders(e)));
            assert(binders(*no).subset_of(binders(e)));
            later_less(avail, env, owned, binders(e), binders(*yes), dead);
            later_less(avail, env, owned, binders(e), binders(*no), dead);
            let t = paired(*yes, avail, tails, exits);
            exits_stay(*yes, avail, tails, exits);
            exits_are_tidy(pool, *yes, avail, tails, exits, env, owned, conts, exit, dead);
            exits_are_tidy(pool, *no, avail, t.tails, t.exits, env, owned, conts, exit, dead);
            split_resume(exits, t.exits, p.exits, k, s, after_exit(exit), reach(*yes, avail, env), reach(*no, avail, env), carried_in(avail), carried_in(avail), dead);
            split_park(tails, t.tails, p.tails, s, dead);
            reuse_is_frame_limited(pool, *yes, avail, tails, exits, env, owned, conts, exit, k, s, dead);
            reuse_is_frame_limited(pool, *no, avail, t.tails, t.exits, env, owned, conts, exit, k, s, dead);
        },
        Term::Match { scrut, arms, ty } => {
            assert(arms_own(pool, arms, env, owned, conts, exit));
            arms_reuse_is_frame_limited(pool, arms, avail, tails, exits, env, owned, conts, exit, k, s, dead);
        },
        Term::Tail(a) => {
            taking(a, avail, None, dead);
            let (b, left) = tail_take(a, avail);
            match exits {
                Some(x) => {
                    assert((p.exits->0)[x.len() as int] == left);
                    assert(resumes(cells((p.exits->0)[x.len() as int], dead), k, s));
                },
                None => {
                    if calls_self(b) {
                        assert(p.tails[tails.len() as int] == left);
                    }
                },
            }
        },
        Term::Goto(id) => {},
    }
}

proof fn split_resume(
    x0: Option<Seq<Seq<Token>>>,
    x1: Option<Seq<Seq<Token>>>,
    x2: Option<Seq<Seq<Token>>>,
    k: Rests,
    s: Parked,
    after: Set<u32>,
    a: Set<u32>,
    b: Set<u32>,
    fa: Set<Token>,
    fb: Set<Token>,
    dead: Set<u32>,
)
    requires
        added_resume(x0, x2, k, s, dead),
        adds_tidy(x0, x1, after, a, fa, dead),
        adds_tidy(x1, x2, after, b, fb, dead),
    ensures
        added_resume(x0, x1, k, s, dead),
        added_resume(x1, x2, k, s, dead),
{
    match (x0, x1, x2) {
        (Some(p), Some(q), Some(r)) => {
            assert forall|i: int| p.len() <= i < q.len() implies resumes(cells(#[trigger] q[i], dead), k, s) by {
                assert(r[i] == q[i]);
            }
        },
        _ => {},
    }
}

proof fn split_park(t0: Seq<Seq<Token>>, t1: Seq<Seq<Token>>, t2: Seq<Seq<Token>>, s: Parked, dead: Set<u32>)
    requires
        added_park(t0, t2, s, dead),
        adds_single(t0, t1, dead),
        adds_single(t1, t2, dead),
    ensures
        added_park(t0, t1, s, dead),
        added_park(t1, t2, s, dead),
{
    assert forall|i: int| t0.len() <= i < t1.len() implies s.subset_of(cells(#[trigger] t1[i], dead)) by {
        assert(t2[i] == t1[i]);
    }
}

proof fn arms_reuse_is_frame_limited(
    pool: ResolvedPool,
    arms: Seq<(PatView, Term)>,
    avail: Seq<Token>,
    tails: Seq<Seq<Token>>,
    exits: Option<Seq<Seq<Token>>>,
    env: Env,
    owned: Set<u32>,
    conts: Map<u32, Set<u32>>,
    exit: ExitView,
    k: Rests,
    s: Parked,
    dead: Set<u32>,
)
    requires
        arms_walkable(pool, arms, avail, env, owned, conts, exit, dead),
        (exits is Some) == (exit is Join),
        added_resume(exits, paired_arms(arms, avail, tails, exits).exits, k, s, dead),
        added_park(tails, paired_arms(arms, avail, tails, exits).tails, s, dead),
    ensures
        arms_overwrite_parked(paired_arms(arms, avail, tails, exits).arms, cells(avail, dead), k, s),
    decreases arms,
{
    if arms.len() > 0 {
        let rest = arms.drop_last();
        let (pat, body) = arms.last();
        let env1 = with_binds(env, pat.binds());
        let owned1 = owned.union(held(pool, env1, bound_set(pat)));
        arms_step(pool, arms, avail, env, owned, conts, exit, dead);
        let before = paired_arms(rest, avail, tails, exits);
        let all = paired_arms(arms, avail, tails, exits);
        let a = fresh_slots(avail).union(env.dom()).union(arms_binders(rest));
        let f = carried_in(avail);
        arms_exits_stay(rest, avail, tails, exits);
        arms_exits_are_tidy(pool, rest, avail, tails, exits, env, owned, conts, exit, dead);
        exits_are_tidy(pool, body, avail, before.tails, before.exits, env1, owned1, conts, exit, dead);
        split_resume(exits, before.exits, all.exits, k, s, after_exit(exit), a, reach(body, avail, env1), f, f, dead);
        split_park(tails, before.tails, all.tails, s, dead);
        arms_reuse_is_frame_limited(pool, rest, avail, tails, exits, env, owned, conts, exit, k, s, dead);
        reuse_is_frame_limited(pool, body, avail, before.tails, before.exits, env1, owned1, conts, exit, k, s, dead);
        assert(all.arms.drop_last() =~= before.arms);
    }
}

/// The slots of a frame that hold something else when a function calls itself: those of its
/// parameters, and those that a pattern fills.
pub open spec fn refilled(e: Term, env: Env) -> Set<u32> {
    env.dom().union(matched(e))
}

/// The cells that one turn of a loop leaves to the next: those parked at every self tail call
/// of the first walk, but for slots that are filled again.
pub open spec fn left_to_next(e: Term, env: Env) -> Parked {
    match seed(paired(e, Seq::empty(), Seq::empty(), None).tails) {
        Some(q) => cells(q, refilled(e, env)),
        None => Set::empty(),
    }
}

/// Reuse is limited to the frame, also round a loop. A constructor overwrites a cell only
/// where one of its own size is parked on every path, in this turn of the loop, or in the one
/// before: at the start of a turn the cells of `left_to_next` are parked, since each self tail
/// call leaves them so. The first time in, nothing is in their slots yet, which no parameter
/// has.
pub proof fn loops_overwrite_what_they_parked(pool: ResolvedPool, e: Term, env: Env, owned: Set<u32>)
    requires
        owns(pool, e, env, owned, Map::empty(), ExitView::Return),
        owned.subset_of(env.dom()),
        binders(e).disjoint(env.dom()),
        bound_once(e),
        reuse_free(e),
    ensures
        overwrites_parked(reused(e), left_to_next(e, env), Seq::empty(), left_to_next(e, env)),
        forall|x: (u32, usize)| #[trigger] left_to_next(e, env).contains(x) ==> !env.contains_key(x.0),
{
    let dead = refilled(e, env);
    let none = Seq::<Token>::empty();
    let no_calls = Seq::<Seq<Token>>::empty();
    let none_map = Map::<u32, Set<u32>>::empty();
    let first = paired(e, none, no_calls, None);
    let s = left_to_next(e, env);
    filled_in_one_way(e);
    assert(walkable(pool, e, none, env, owned, none_map, ExitView::Return, dead));
    exits_are_tidy(pool, e, none, no_calls, None, env, owned, none_map, ExitView::Return, dead);
    exits_stay(e, none, no_calls, None);
    match seed(first.tails) {
        None => {
            assert(cells(none, dead) =~= Set::empty());
            reuse_is_frame_limited(
                pool,
                e,
                none,
                no_calls,
                None,
                env,
                owned,
                none_map,
                ExitView::Return,
                Seq::empty(),
                s,
                dead,
            );
        },
        Some(q) => {
            let common = on_all(first.tails);
            let second = paired(e, q, no_calls, None);
            part_of_itself(none);
            assert(part_of(none, q));
            more_finds_more(e, none, q, no_calls, no_calls, None, None);
            exits_stay(e, q, no_calls, None);
            assert(first.tails.len() > 0);
            assert(one_per_slot(first.tails[0], dead));
            kept_is_part(first.tails[0], |t: Token| on_each(first.tails, t));
            part_has_one_per_slot(common, first.tails[0], dead);
            assert forall|i: int| 0 <= i < common.len() implies !(#[trigger] common[i]).carried by {
                assert(common.contains(common[i]));
                common_is_on_each(first.tails, common[i], 0);
            }
            assert(tidy(q, env, owned, binders(e), dead)) by {
                assert forall|i: int, j: int|
                    0 <= i < j < q.len() && sure(#[trigger] q[i], dead) && sure(#[trigger] q[j], dead) implies q[i].slot
                    != q[j].slot by {
                    assert(sure(common[i], dead) && sure(common[j], dead));
                }
                assert forall|t: Token| #[trigger] q.contains(t) implies fits(t, env, owned, binders(e), dead) by {
                    let i = choose|i: int| 0 <= i < q.len() && q[i] == t;
                    assert(q[i].carried);
                }
            }
            assert(added_park(no_calls, second.tails, s, dead)) by {
                assert forall|m: int| 0 <= m < second.tails.len() implies s.subset_of(cells(#[trigger] second.tails[m], dead)) by {
                    assert forall|c: (u32, usize)| s.contains(c) implies cells(second.tails[m], dead).contains(c) by {
                        let t = choose|t: Token| #[trigger]
                            q.contains(t) && sure(t, dead) && t.slot.0 == c.0 && t.shape.fields == c.1;
                        let i = choose|i: int| 0 <= i < q.len() && q[i] == t;
                        let u = common[i];
                        assert(common.contains(u));
                        common_is_on_each(first.tails, u, m);
                        part_has(first.tails[m], second.tails[m], u);
                        assert(second.tails[m].contains(u) && sure(u, dead));
                    }
                }
            }
            reuse_is_frame_limited(
                pool,
                e,
                q,
                no_calls,
                None,
                env,
                owned,
                none_map,
                ExitView::Return,
                Seq::empty(),
                s,
                dead,
            );
            assert forall|x: (u32, usize)| #[trigger] s.contains(x) implies !env.contains_key(x.0) by {
                let t = choose|t: Token| #[trigger] q.contains(t) && sure(t, dead) && t.slot.0 == x.0 && t.shape.fields == x.1;
                let i = choose|i: int| 0 <= i < q.len() && q[i] == t;
                assert(q[i].carried);
            }
        },
    }
}

} // verus!
