//! Where a body's references are released.
//!
//! [`dropped`] says, by recursion on a body, what Perceus makes of it: a
//! reference is released right after the last read of the local that holds it,
//! and where paths part, each releases what only another one reads.
use vstd::prelude::*;

use crate::core_ir::ids::ascending;
use crate::core_ir::types::{RTy, ResolvedPool};
use crate::core_ir::{AtomView, CoreBind, JoinId, LocalId, PatView, ReuseShape, Term};

verus! {

/// Where a `Tail` sends its value.
pub enum ExitView {
    /// Out of the function, with every reference the frame holds.
    Return,
    /// Into a join's bind of type `ty`, after which code that reads `after` runs.
    Join { ty: RTy, after: Set<u32> },
}

/// What is known of a function's locals and continuations so far.
#[verifier::ext_equal]
pub struct Cx {
    /// The next local number free to mint.
    pub next: int,
    /// The type of each bind met.
    pub ty: Map<u32, RTy>,
    /// The allocation shape of a bind, where its value proves one.
    pub shape: Map<u32, ReuseShape>,
    /// What each continuation met reads.
    pub conts: Map<u32, Set<u32>>,
    /// No number ran out and no jump led to a continuation not met.
    pub ok: bool,
}

impl Cx {
    /// `b` is bound to a value of shape `s`.
    pub open spec fn record(self, b: CoreBind, s: Option<ReuseShape>) -> Cx {
        Cx {
            ty: self.ty.insert(b.id.0, b.ty),
            shape: match s {
                Some(v) => self.shape.insert(b.id.0, v),
                None => self.shape,
            },
            ..self
        }
    }

    /// Every bind of `bs` is bound, to values of no known shape.
    pub open spec fn record_all(self, bs: Seq<CoreBind>) -> Cx
        decreases bs.len(),
    {
        if bs.len() == 0 {
            self
        } else {
            self.record_all(bs.drop_last()).record(bs.last(), None)
        }
    }

    /// `x` may hold a heap cell. A local never bound holds nothing.
    pub open spec fn heap(self, pool: ResolvedPool, x: LocalId) -> bool {
        self.ty.contains_key(x.0) && pool.heap(self.ty[x.0])
    }

    /// The shape recorded of `x`.
    pub open spec fn shape_of(self, x: LocalId) -> Option<ReuseShape> {
        if self.shape.contains_key(x.0) {
            Some(self.shape[x.0])
        } else {
            None
        }
    }

    /// The bind of the local that is minted next.
    pub open spec fn fresh(self, ty: RTy) -> CoreBind {
        CoreBind { id: LocalId(self.next as u32), ty, global: None }
    }

    /// That local is minted, for a value of shape `s`.
    pub open spec fn mint(self, ty: RTy, s: Option<ReuseShape>) -> Cx {
        let cx = self.record(self.fresh(ty), s);
        Cx { next: self.next + 1, ok: self.ok && self.next < u32::MAX, ..cx }
    }

    /// What matching `scrut` against `pat` records.
    pub open spec fn record_pat(self, pat: PatView, scrut: LocalId) -> Cx {
        match pat {
            PatView::Bind(b) => self.record(b, self.shape_of(scrut)),
            _ => self.record_all(pat.binds()),
        }
    }

    /// The scrutinee's shape in an arm: a constructor pattern proves one, any
    /// other leaves what was known.
    pub open spec fn arm_shape(self, pat: PatView, scrut: LocalId) -> Option<ReuseShape> {
        match pat {
            PatView::Ctor { variant, fields } => Some(ReuseShape { fields: fields.len() as usize }),
            _ => self.shape_of(scrut),
        }
    }
}

/// A transformed body, the locals from outside that it reads, and what is known
/// after it.
pub struct Dropped {
    pub term: Term,
    pub live: Set<u32>,
    pub cx: Cx,
}

/// `body` behind a release of each local of `dead` that may hold a cell, in that
/// order. `arm` overrides the recorded shape of one local.
pub open spec fn wrapped(
    pool: ResolvedPool,
    cx: Cx,
    dead: Seq<LocalId>,
    arm: Option<(LocalId, ReuseShape)>,
    body: Term,
) -> Term
    decreases dead.len(),
{
    if dead.len() == 0 {
        body
    } else {
        let rest = wrapped(pool, cx, dead.drop_first(), arm, body);
        if cx.heap(pool, dead[0]) {
            let shape = match arm {
                Some((s, sh)) => if s == dead[0] {
                    Some(sh)
                } else {
                    cx.shape_of(dead[0])
                },
                None => cx.shape_of(dead[0]),
            };
            Term::Drop { local: dead[0], shape, body: Box::new(rest) }
        } else {
            rest
        }
    }
}

/// The locals that `a` reads for the last time, when code that reads `after`
/// comes next, and that may hold a cell.
pub open spec fn dying(pool: ResolvedPool, cx: Cx, a: AtomView, after: Set<u32>) -> Seq<LocalId> {
    ascending(a.reads().difference(after)).filter(|x: LocalId| cx.heap(pool, x))
}

/// A `Tail`, with what dies at it. Into a join, a local read for the last time is
/// handed over: by a move if it is the whole value, else the value is bound
/// first, and that bind is moved after the releases.
pub open spec fn dropped_tail(pool: ResolvedPool, cx: Cx, a: AtomView, exit: ExitView) -> Dropped {
    match exit {
        ExitView::Return => Dropped { term: Term::Tail(a), live: a.reads(), cx },
        ExitView::Join { ty, after } => {
            let dead = dying(pool, cx, a, after);
            let live = a.reads().union(after);
            if dead.len() == 0 {
                Dropped { term: Term::Tail(a), live, cx }
            } else {
                match a {
                    AtomView::Local(x) => Dropped { term: Term::Tail(AtomView::Move(x)), live, cx },
                    AtomView::Move(x) => Dropped { term: Term::Tail(AtomView::Move(x)), live, cx },
                    _ => {
                        let bind = cx.fresh(ty);
                        let minted = cx.mint(ty, a.shape());
                        let value = if minted.heap(pool, bind.id) {
                            AtomView::Move(bind.id)
                        } else {
                            AtomView::Local(bind.id)
                        };
                        let body = wrapped(pool, minted, dead, None, Term::Tail(value));
                        Dropped {
                            term: Term::Let { bind, rhs: a, body: Box::new(body) },
                            live,
                            cx: minted,
                        }
                    },
                }
            }
        },
    }
}

/// An arm whose body is transformed, before it releases what only others read.
pub struct Arm {
    pub pat: PatView,
    pub term: Term,
    /// What the body reads from outside the arm.
    pub live: Set<u32>,
    /// What the pattern binds and the body does not read.
    pub dead_binders: Seq<LocalId>,
    pub scrut_shape: Option<ReuseShape>,
}

/// Some arms of a `match`, and what they read between them.
pub struct Arms {
    pub arms: Seq<Arm>,
    pub live: Set<u32>,
    pub cx: Cx,
}

/// The locals that `bs` bind.
pub open spec fn ids_of(bs: Seq<CoreBind>) -> Seq<LocalId> {
    bs.map_values(|b: CoreBind| b.id)
}

/// The locals `pat` binds.
pub open spec fn bound(pat: PatView) -> Seq<LocalId> {
    ids_of(pat.binds())
}

/// The numbers of the locals `pat` binds.
pub open spec fn bound_set(pat: PatView) -> Set<u32> {
    Set::new(|n: u32| bound(pat).contains(LocalId(n)))
}

/// The arm that `pat` and its transformed body make.
pub open spec fn arm_of(pat: PatView, body: Dropped, scrut_shape: Option<ReuseShape>) -> Arm {
    Arm {
        pat,
        term: body.term,
        live: body.live.difference(bound_set(pat)),
        dead_binders: bound(pat).filter(|x: LocalId| !body.live.contains(x.0)),
        scrut_shape,
    }
}

/// What an arm releases at its head: what only another arm reads, the scrutinee
/// unless some arm reads it again, and the binders it does not read.
pub open spec fn arm_drops(live: Set<u32>, scrut: LocalId, arm: Arm) -> Seq<LocalId> {
    ascending(live.difference(arm.live)) + (if !live.contains(scrut.0) {
        seq![scrut]
    } else {
        Seq::empty()
    }) + arm.dead_binders
}

/// An arm behind what it releases.
pub open spec fn finished_arm(pool: ResolvedPool, cx: Cx, live: Set<u32>, scrut: LocalId, arm: Arm) -> (PatView, Term) {
    let over = match arm.scrut_shape {
        Some(s) => Some((scrut, s)),
        None => None,
    };
    (arm.pat, wrapped(pool, cx, arm_drops(live, scrut, arm), over, arm.term))
}

/// A `match` whose arms are transformed.
pub open spec fn finished_match(pool: ResolvedPool, scrut: LocalId, arms: Arms, ty: RTy) -> Dropped {
    Dropped {
        term: Term::Match {
            scrut,
            arms: arms.arms.map_values(|a: Arm| finished_arm(pool, arms.cx, arms.live, scrut, a)),
            ty,
        },
        live: arms.live.insert(scrut.0),
        cx: arms.cx,
    }
}

/// `let bind = rhs` before a transformed body: what `rhs` reads for the last
/// time, and the bind itself if nothing reads it, go between the two.
pub open spec fn rebuilt_let(pool: ResolvedPool, bind: CoreBind, rhs: AtomView, body: Dropped) -> Dropped {
    let dead = ascending(rhs.reads().difference(body.live)) + (if !body.live.contains(bind.id.0) {
        seq![bind.id]
    } else {
        Seq::empty()
    });
    Dropped {
        term: Term::Let { bind, rhs, body: Box::new(wrapped(pool, body.cx, dead, None, body.term)) },
        live: body.live.remove(bind.id.0).union(rhs.reads()),
        cx: body.cx,
    }
}

/// A transformed join before a transformed body.
pub open spec fn rebuilt_join(pool: ResolvedPool, bind: CoreBind, join: Dropped, body: Dropped) -> Dropped {
    let body_term = if body.live.contains(bind.id.0) {
        body.term
    } else {
        wrapped(pool, join.cx, seq![bind.id], None, body.term)
    };
    Dropped {
        term: Term::LetJoin { bind, join: Box::new(join.term), body: Box::new(body_term) },
        live: join.live,
        cx: join.cx,
    }
}

/// How a join's `Tail`s leave it, when `body` comes after it.
pub open spec fn join_exit(bind: CoreBind, body: Dropped) -> ExitView {
    ExitView::Join { ty: bind.ty, after: body.live.remove(bind.id.0) }
}

/// A continuation was met that reads `live`.
pub open spec fn with_cont(cx: Cx, id: JoinId, live: Set<u32>) -> Cx {
    Cx { conts: cx.conts.insert(id.0, live), ..cx }
}

/// What a body becomes: releases inserted for the locals that go dead in it.
pub open spec fn dropped(pool: ResolvedPool, cx: Cx, e: Term, exit: ExitView) -> Dropped
    decreases e,
{
    match e {
        Term::Let { bind, rhs, body } => rebuilt_let(
            pool,
            bind,
            rhs,
            dropped(pool, cx.record(bind, rhs.shape()), *body, exit),
        ),
        Term::LetJoin { bind, join, body } => {
            let after = dropped(pool, cx.record(bind, None), *body, exit);
            rebuilt_join(pool, bind, dropped(pool, after.cx, *join, join_exit(bind, after)), after)
        },
        Term::LetCont { id, cont, body } => {
            let shared = dropped(pool, cx, *cont, exit);
            let rest = dropped(pool, with_cont(shared.cx, id, shared.live), *body, exit);
            Dropped {
                term: Term::LetCont { id, cont: Box::new(shared.term), body: Box::new(rest.term) },
                ..rest
            }
        },
        Term::Drop { local, shape, body } => dropped(pool, cx, *body, exit),
        Term::Tail(a) => dropped_tail(pool, cx, a, exit),
        Term::Goto(id) => Dropped {
            term: Term::Goto(id),
            live: cx.conts[id.0],
            cx: Cx { ok: cx.ok && cx.conts.contains_key(id.0), ..cx },
        },
        Term::If { cond, yes, no, ty } => {
            let t = dropped(pool, cx, *yes, exit);
            let f = dropped(pool, t.cx, *no, exit);
            Dropped {
                term: Term::If {
                    cond,
                    yes: Box::new(wrapped(pool, f.cx, ascending(f.live.difference(t.live)), None, t.term)),
                    no: Box::new(wrapped(pool, f.cx, ascending(t.live.difference(f.live)), None, f.term)),
                    ty,
                },
                live: t.live.union(f.live).insert(cond.0),
                cx: f.cx,
            }
        },
        Term::Match { scrut, arms, ty } => finished_match(
            pool,
            scrut,
            dropped_arms(pool, cx, scrut, arms, exit),
            ty,
        ),
    }
}

/// The arms of a `match`, transformed from the first on.
pub open spec fn dropped_arms(
    pool: ResolvedPool,
    cx: Cx,
    scrut: LocalId,
    arms: Seq<(PatView, Term)>,
    exit: ExitView,
) -> Arms
    decreases arms,
{
    if arms.len() == 0 {
        Arms { arms: Seq::empty(), live: Set::empty(), cx }
    } else {
        let before = dropped_arms(pool, cx, scrut, arms.drop_last(), exit);
        let pat = arms.last().0;
        let shape = before.cx.arm_shape(pat, scrut);
        let body = dropped(pool, before.cx.record_pat(pat, scrut), arms.last().1, exit);
        let arm = arm_of(pat, body, shape);
        Arms { arms: before.arms.push(arm), live: before.live.union(arm.live), cx: body.cx }
    }
}

/// Nothing after a failure succeeds.
pub proof fn failure_stays(pool: ResolvedPool, cx: Cx, e: Term, exit: ExitView)
    ensures
        dropped(pool, cx, e, exit).cx.ok ==> cx.ok,
    decreases e,
{
    match e {
        Term::Let { bind, rhs, body } => {
            failure_stays(pool, cx.record(bind, rhs.shape()), *body, exit);
        },
        Term::LetJoin { bind, join, body } => {
            failure_stays(pool, cx.record(bind, None), *body, exit);
            let after = dropped(pool, cx.record(bind, None), *body, exit);
            failure_stays(pool, after.cx, *join, join_exit(bind, after));
        },
        Term::LetCont { id, cont, body } => {
            failure_stays(pool, cx, *cont, exit);
            let shared = dropped(pool, cx, *cont, exit);
            failure_stays(pool, with_cont(shared.cx, id, shared.live), *body, exit);
        },
        Term::Drop { local, shape, body } => {
            failure_stays(pool, cx, *body, exit);
        },
        Term::Tail(a) => {},
        Term::Goto(id) => {},
        Term::If { cond, yes, no, ty } => {
            failure_stays(pool, cx, *yes, exit);
            failure_stays(pool, dropped(pool, cx, *yes, exit).cx, *no, exit);
        },
        Term::Match { scrut, arms, ty } => {
            arms_failure_stays(pool, cx, scrut, arms, exit);
        },
    }
}

/// Nothing after a failure in an arm succeeds.
pub proof fn arms_failure_stays(
    pool: ResolvedPool,
    cx: Cx,
    scrut: LocalId,
    arms: Seq<(PatView, Term)>,
    exit: ExitView,
)
    ensures
        dropped_arms(pool, cx, scrut, arms, exit).cx.ok ==> cx.ok,
    decreases arms,
{
    if arms.len() > 0 {
        let before = dropped_arms(pool, cx, scrut, arms.drop_last(), exit);
        let pat = arms.last().0;
        arms_failure_stays(pool, cx, scrut, arms.drop_last(), exit);
        record_all_keeps(before.cx, pat.binds());
        failure_stays(pool, before.cx.record_pat(pat, scrut), arms.last().1, exit);
    }
}

/// Recording binds changes only what is known of their types.
pub proof fn record_all_keeps(cx: Cx, bs: Seq<CoreBind>)
    ensures
        cx.record_all(bs).ok == cx.ok,
        cx.record_all(bs).next == cx.next,
        cx.record_all(bs).shape == cx.shape,
        cx.record_all(bs).conts == cx.conts,
    decreases bs.len(),
{
    if bs.len() > 0 {
        record_all_keeps(cx, bs.drop_last());
    }
}

} // verus!
