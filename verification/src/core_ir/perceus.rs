//! Perceus: reference-count insertion on Core IR.
//!
//!  1. Backward liveness inserts `Drop` after each heap bind's last read.
//!     `If` and `Match` equalise ownership, so every path releases every owned
//!     slot exactly once. A `LetJoin` is walked through, not around: its `Tail`s
//!     continue into the code after it, so what that code reads is live at each
//!     of them, and each branch drops the rest itself.
//!  2. A forward walk pairs each `Drop` with a later `Ctor` of the same shape.
//!  3. A second such walk, seeded with what the first found at every self tail
//!     call, lets a loop reuse the previous iteration's cells.
use std::collections::{BTreeMap, BTreeSet};

use vstd::prelude::*;

use crate::core_ir::drops::{
    arm_drops, bound, bound_set, dropped, dropped_arms, dropped_tail, failure_stays, finished_arm,
    ids_of, finished_match, join_exit, rebuilt_join, rebuilt_let, record_all_keeps, with_cont,
    wrapped, Cx, Dropped, ExitView,
};
use crate::core_ir::extent::fn_end;
use crate::core_ir::ids::{ascending, members, set_diff};
use crate::core_ir::reuse::{reuse_pass, reused};
use crate::core_ir::types::{RTy, ResolvedPool};
use crate::core_ir::{
    Atom, CoreBind, CoreExpr, CoreFn, CorePat, JoinId, LocalId, PatView, ReuseShape, Term,
};

verus! {

broadcast use {vstd::std_specs::btree::group_btree_axioms, vstd::laws_cmp::group_laws_cmp};

/// What is known on entry to a function.
pub open spec fn entry(f: CoreFn) -> Cx {
    start(fn_end(f) as u32).record_all(f.params@)
}

/// A function's body with releases in it, and with what it leaves to its
/// parameters to own.
pub open spec fn dropped_fn(pool: ResolvedPool, f: CoreFn) -> Dropped {
    dropped(pool, entry(f), f.body.view(), ExitView::Return)
}

/// That body behind the release of the parameters it does not read. They are owned
/// on entry, so this keeps the frame's release count balanced.
pub open spec fn released(pool: ResolvedPool, f: CoreFn) -> Term {
    let d = dropped_fn(pool, f);
    let dead = ids_of(f.params@).filter(|x: LocalId| !d.live.contains(x.0));
    wrapped(pool, d.cx, dead, None, d.term)
}

/// Runs Perceus on a single lowered function. `pool` is consulted only to classify
/// a bind's type as heap-shaped.
///
/// Every jump must lead to a continuation that encloses it or was met before, and
/// the local numbers must not run out.
pub fn perceus(pool: &ResolvedPool, f: CoreFn) -> (out: CoreFn)
    requires
        fn_end(f) <= u32::MAX,
        dropped_fn(*pool, f).cx.ok,
    ensures
        out.params == f.params,
        out.ret_ty == f.ret_ty,
        out.body.view() == reused(released(*pool, f)),
{
    let end = f.locals_end();
    let mut cx = Perceus::new(pool, end);
    let CoreFn { params, body, ret_ty } = f;
    let mut ids: Vec<LocalId> = Vec::new();
    let mut k: usize = 0;
    assert(params@.take(0).len() == 0);
    while k < params.len()
        invariant
            k <= params@.len(),
            cx.types() == *pool,
            cx.view() == start(end).record_all(params@.take(k as int)),
            ids@.len() == k,
            forall|i: int| 0 <= i < k ==> ids@[i] == params@[i].id,
        decreases params@.len() - k,
    {
        assert(params@.take(k + 1).drop_last() =~= params@.take(k as int));
        assert(params@.take(k + 1).last() == params@[k as int]);
        cx.record_bind(&params[k], None);
        ids.push(params[k].id);
        k += 1;
    }
    assert(params@.take(k as int) =~= params@);
    assert(ids@ =~= ids_of(params@));
    let exit = Exit::Return;
    let (body, live) = cx.drop_pass(body, &exit);
    let dead_params = unread(&ids, &live);
    let body = cx.wrap_drops(&dead_params, None, body);
    CoreFn { params, body: reuse_pass(body), ret_ty }
}

/// Where a `Tail` in the body being transformed sends its value.
pub enum Exit {
    /// Out of the function. The frame's references go with it, so a `Tail` needs
    /// no drop after it.
    Return,
    /// Into a `LetJoin`'s bind, after which the code after the join runs.
    Join {
        /// The bind's type, for a local minted to hold the value.
        ty: RTy,
        /// Locals the code after the join reads. Every path through the join
        /// must still own them when it reaches a `Tail`.
        after: BTreeSet<u32>,
    },
}

impl View for Exit {
    type V = ExitView;

    open spec fn view(&self) -> ExitView {
        match *self {
            Exit::Return => ExitView::Return,
            Exit::Join { ty, after } => ExitView::Join { ty, after: after@ },
        }
    }
}

/// The state of one function's drop pass.
pub struct Perceus<'p> {
    pool: &'p ResolvedPool,
    /// The next local id free to mint, above every one the function uses.
    next_local: u32,
    /// Every bind's resolved type, for the heap-shape gate on `Drop`.
    ty: BTreeMap<u32, RTy>,
    /// Allocation shape of a bind when its rhs proves one.
    shape: BTreeMap<u32, ReuseShape>,
    /// What each continuation reads, recorded before its `Goto`s are met.
    cont_live: BTreeMap<u32, BTreeSet<u32>>,
}

/// One node peeled off the spine, awaiting its body.
pub enum SpineFrame {
    Let { bind: CoreBind, rhs: Atom },
    /// Its join is transformed only once the body's live set is known, since that
    /// is what each of its `Tail`s must leave owned.
    Join { bind: CoreBind, join: Box<CoreExpr> },
    /// Its continuation is transformed already.
    Cont { id: JoinId, cont: CoreExpr },
}

/// The body that a frame makes of a transformed one.
pub open spec fn rebuilt(pool: ResolvedPool, frame: SpineFrame, body: Dropped) -> Dropped {
    match frame {
        SpineFrame::Let { bind, rhs } => rebuilt_let(pool, bind, rhs@, body),
        SpineFrame::Join { bind, join } => rebuilt_join(
            pool,
            bind,
            dropped(pool, body.cx, join.view(), join_exit(bind, body)),
            body,
        ),
        SpineFrame::Cont { id, cont } => Dropped {
            term: Term::LetCont { id, cont: Box::new(cont.view()), body: Box::new(body.term) },
            ..body
        },
    }
}

/// The body that a spine makes of a transformed one, innermost frame last.
pub open spec fn unwound(pool: ResolvedPool, spine: Seq<SpineFrame>, body: Dropped) -> Dropped
    decreases spine.len(),
{
    if spine.len() == 0 {
        body
    } else {
        unwound(pool, spine.drop_last(), rebuilt(pool, spine.last(), body))
    }
}

proof fn unwound_failure_stays(pool: ResolvedPool, spine: Seq<SpineFrame>, body: Dropped)
    ensures
        unwound(pool, spine, body).cx.ok ==> body.cx.ok,
    decreases spine.len(),
{
    if spine.len() > 0 {
        unwound_failure_stays(pool, spine.drop_last(), rebuilt(pool, spine.last(), body));
        match spine.last() {
            SpineFrame::Join { bind, join } => {
                failure_stays(pool, body.cx, join.view(), join_exit(bind, body));
            },
            _ => {},
        }
    }
}

/// The number of nodes of a body.
pub open spec fn size(e: Term) -> nat
    decreases e,
{
    match e {
        Term::Let { bind, rhs, body } => 1 + size(*body),
        Term::LetJoin { bind, join, body } => 1 + size(*join) + size(*body),
        Term::LetCont { id, cont, body } => 1 + size(*cont) + size(*body),
        Term::Drop { local, shape, body } => 1 + size(*body),
        Term::Tail(a) => 1,
        Term::Goto(id) => 1,
        Term::If { cond, yes, no, ty } => 1 + size(*yes) + size(*no),
        Term::Match { scrut, arms, ty } => 1 + arms_size(arms),
    }
}

/// The number of nodes of some arms.
pub open spec fn arms_size(arms: Seq<(PatView, Term)>) -> nat
    decreases arms,
{
    if arms.len() == 0 {
        0
    } else {
        1 + arms_size(arms.drop_last()) + size(arms.last().1)
    }
}

pub proof fn arm_is_smaller(arms: Seq<(PatView, Term)>, i: int)
    requires
        0 <= i < arms.len(),
    ensures
        size(arms[i].1) < arms_size(arms),
    decreases arms.len(),
{
    if i < arms.len() - 1 {
        arm_is_smaller(arms.drop_last(), i);
    }
}

/// The views of some arms.
pub open spec fn arm_views(arms: Seq<(CorePat, CoreExpr)>) -> Seq<(PatView, Term)> {
    Seq::new(arms.len(), |i: int| (arms[i].0@, arms[i].1.view()))
}

/// An arm whose body is transformed.
pub struct LoweredArm {
    pat: CorePat,
    body: CoreExpr,
    live: BTreeSet<u32>,
    dead_binders: Vec<LocalId>,
    scrut_shape: Option<ReuseShape>,
}

impl View for LoweredArm {
    type V = crate::core_ir::drops::Arm;

    closed spec fn view(&self) -> crate::core_ir::drops::Arm {
        crate::core_ir::drops::Arm {
            pat: self.pat@,
            term: self.body.view(),
            live: self.live@,
            dead_binders: self.dead_binders@,
            scrut_shape: self.scrut_shape,
        }
    }
}

impl<'p> Perceus<'p> {
    /// The pool the types come from.
    pub closed spec fn types(&self) -> ResolvedPool {
        *self.pool
    }

    /// What is known so far.
    pub closed spec fn view(&self) -> Cx {
        Cx {
            next: self.next_local as int,
            ty: self.ty@,
            shape: self.shape@,
            conts: self.cont_live@.map_values(|s: BTreeSet<u32>| s@),
            ok: true,
        }
    }

    /// Nothing is known yet; minted locals start at `next_local`.
    pub fn new(pool: &'p ResolvedPool, next_local: u32) -> (cx: Perceus<'p>)
        ensures
            cx.types() == *pool,
            cx.view() == start(next_local),
    {
        let cx = Perceus {
            pool,
            next_local,
            ty: BTreeMap::new(),
            shape: BTreeMap::new(),
            cont_live: BTreeMap::new(),
        };
        assert(cx.view() =~= start(next_local));
        cx
    }

    /// Notes what `b` is bound to.
    pub fn record_bind(&mut self, b: &CoreBind, rhs_shape: Option<ReuseShape>)
        ensures
            final(self).types() == old(self).types(),
            final(self).view() == old(self).view().record(*b, rhs_shape),
    {
        self.ty.insert(b.id.0, b.ty);
        if let Some(s) = rhs_shape {
            self.shape.insert(b.id.0, s);
        }
        assert(self.view() =~= old(self).view().record(*b, rhs_shape));
    }

    /// Whether the local's type allocates a heap cell. A local with no recorded
    /// type was never bound, so it owns nothing.
    pub fn is_heap_local(&self, id: LocalId) -> (heap: bool)
        ensures
            heap == self.view().heap(self.types(), id),
    {
        match self.ty.get(&id.0) {
            Some(t) => self.pool.is_heap(*t),
            None => false,
        }
    }

    /// The shape recorded of a local.
    fn shape_of(&self, id: LocalId) -> (shape: Option<ReuseShape>)
        ensures
            shape == self.view().shape_of(id),
    {
        match self.shape.get(&id.0) {
            Some(s) => Some(*s),
            None => None,
        }
    }

    /// A fresh local of type `ty`, numbered above every one the function had.
    pub fn mint(&mut self, ty: RTy, shape: Option<ReuseShape>) -> (b: CoreBind)
        requires
            old(self).view().next < u32::MAX,
        ensures
            b == old(self).view().fresh(ty),
            final(self).types() == old(self).types(),
            final(self).view() == old(self).view().mint(ty, shape),
    {
        let b = CoreBind::new(LocalId(self.next_local), ty);
        self.next_local = self.next_local + 1;
        self.record_bind(&b, shape);
        assert(self.view() =~= old(self).view().mint(ty, shape));
        b
    }

    /// Prefixes `body` with a `Drop` of each heap-shaped local of `dead`, so that
    /// the textual order matches `dead`. `arm_scrut` overrides the recorded shape
    /// for one id.
    pub fn wrap_drops(
        &self,
        dead: &Vec<LocalId>,
        arm_scrut: Option<(LocalId, ReuseShape)>,
        body: CoreExpr,
    ) -> (out: CoreExpr)
        ensures
            out.view() == wrapped(self.types(), self.view(), dead@, arm_scrut, body.view()),
    {
        let ghost inner = body.view();
        let mut out = body;
        let mut k: usize = dead.len();
        assert(dead@.skip(k as int).len() == 0);
        while k > 0
            invariant
                k <= dead@.len(),
                out.view() == wrapped(self.types(), self.view(), dead@.skip(k as int), arm_scrut, inner),
            decreases k,
        {
            k -= 1;
            let x = dead[k];
            assert(dead@.skip(k as int).drop_first() =~= dead@.skip(k + 1));
            assert(dead@.skip(k as int)[0] == x);
            if self.is_heap_local(x) {
                let shape = match arm_scrut {
                    Some((s, sh)) => if s == x {
                        Some(sh)
                    } else {
                        self.shape_of(x)
                    },
                    None => self.shape_of(x),
                };
                out = CoreExpr::Drop { local: x, shape, body: Box::new(out) };
            }
        }
        assert(dead@.skip(0) =~= dead@);
        out
    }

    /// Registers the locals a pattern binds. Returns them, and the scrutinee's
    /// shape: a `Ctor` arm proves an arity, other patterns pass through what it
    /// had.
    pub fn record_pat(&mut self, pat: &CorePat, scrut: LocalId) -> (out: (Vec<LocalId>, Option<ReuseShape>))
        ensures
            out.0@ == bound(pat@),
            out.1 == old(self).view().arm_shape(pat@, scrut),
            final(self).types() == old(self).types(),
            final(self).view() == old(self).view().record_pat(pat@, scrut),
    {
        let s = self.shape_of(scrut);
        match pat {
            CorePat::Wild => {
                let ids: Vec<LocalId> = Vec::new();
                assert(ids@ =~= bound(pat@));
                (ids, s)
            },
            CorePat::Lit(_) => {
                let ids: Vec<LocalId> = Vec::new();
                assert(ids@ =~= bound(pat@));
                (ids, s)
            },
            CorePat::Bind(b) => {
                self.record_bind(b, s);
                let mut ids: Vec<LocalId> = Vec::new();
                ids.push(b.id);
                assert(ids@ =~= bound(pat@));
                (ids, s)
            },
            CorePat::Ctor { fields, .. } => {
                let mut ids: Vec<LocalId> = Vec::new();
                let mut k: usize = 0;
                assert(fields@.take(0).len() == 0);
                while k < fields.len()
                    invariant
                        k <= fields@.len(),
                        ids@.len() == k,
                        forall|i: int| 0 <= i < k ==> ids@[i] == fields@[i].id,
                        self.types() == old(self).types(),
                        self.view() == old(self).view().record_all(fields@.take(k as int)),
                    decreases fields@.len() - k,
                {
                    assert(fields@.take(k + 1).drop_last() =~= fields@.take(k as int));
                    assert(fields@.take(k + 1).last() == fields@[k as int]);
                    self.record_bind(&fields[k], None);
                    ids.push(fields[k].id);
                    k += 1;
                }
                assert(fields@.take(k as int) =~= fields@);
                assert(ids@ =~= bound(pat@));
                (ids, Some(ReuseShape::ctor(fields.len())))
            },
        }
    }

    /// A `Tail`, with what dies at it.
    pub fn drop_tail(&mut self, a: Atom, exit: &Exit) -> (out: (CoreExpr, BTreeSet<u32>))
        requires
            dropped_tail(old(self).types(), old(self).view(), a@, exit@).cx.ok,
        ensures
            final(self).types() == old(self).types(),
            final(self).view() == dropped_tail(old(self).types(), old(self).view(), a@, exit@).cx,
            out.0.view() == dropped_tail(old(self).types(), old(self).view(), a@, exit@).term,
            out.1@ == dropped_tail(old(self).types(), old(self).view(), a@, exit@).live,
    {
        let reads = atom_live(&a);
        match exit {
            Exit::Return => (CoreExpr::Tail(a), reads),
            Exit::Join { ty, after } => {
                let all = set_diff(&reads, after);
                let dead = self.heap_only(&all);
                let live = union(&reads, after);
                if dead.len() == 0 {
                    return (CoreExpr::Tail(a), live);
                }
                match a {
                    Atom::Local(x) => (CoreExpr::Tail(Atom::Move(x)), live),
                    Atom::Move(x) => (CoreExpr::Tail(Atom::Move(x)), live),
                    a => {
                        let shape = ctor_shape(&a);
                        let t = self.mint(*ty, shape);
                        let value = if self.is_heap_local(t.id) {
                            Atom::Move(t.id)
                        } else {
                            Atom::Local(t.id)
                        };
                        let body = self.wrap_drops(&dead, None, CoreExpr::Tail(value));
                        (CoreExpr::Let { bind: t, rhs: a, body: Box::new(body) }, live)
                    },
                }
            },
        }
    }

    /// The locals of `ids` that may hold a cell.
    fn heap_only(&self, ids: &Vec<LocalId>) -> (out: Vec<LocalId>)
        ensures
            out@ == ids@.filter(|x: LocalId| self.view().heap(self.types(), x)),
    {
        let ghost keep = |x: LocalId| self.view().heap(self.types(), x);
        let mut out: Vec<LocalId> = Vec::new();
        let mut k: usize = 0;
        assert(ids@.take(0).filter(keep) =~= Seq::empty()) by {
            reveal(Seq::filter);
        }
        while k < ids.len()
            invariant
                k <= ids@.len(),
                keep == (|x: LocalId| self.view().heap(self.types(), x)),
                out@ == ids@.take(k as int).filter(keep),
            decreases ids@.len() - k,
        {
            assert(ids@.take(k + 1).drop_last() =~= ids@.take(k as int));
            assert(ids@.take(k + 1).filter(keep) == (if keep(ids@[k as int]) {
                ids@.take(k as int).filter(keep).push(ids@[k as int])
            } else {
                ids@.take(k as int).filter(keep)
            })) by {
                reveal(Seq::filter);
            }
            if self.is_heap_local(ids[k]) {
                out.push(ids[k]);
            }
            k += 1;
        }
        assert(ids@.take(k as int) =~= ids@);
        out
    }
}

impl<'p> Perceus<'p> {
    /// Transforms `e`. Returns what it becomes, and the locals from outside that it
    /// reads and so leaves to its surroundings to own. Drops are inserted for the
    /// locals that go dead inside `e`. The spine is walked iteratively, so a long
    /// straight-line body does not recurse.
    pub fn drop_pass(&mut self, e: CoreExpr, exit: &Exit) -> (out: (CoreExpr, BTreeSet<u32>))
        requires
            dropped(old(self).types(), old(self).view(), e.view(), exit@).cx.ok,
        ensures
            final(self).types() == old(self).types(),
            final(self).view() == dropped(old(self).types(), old(self).view(), e.view(), exit@).cx,
            out.0.view() == dropped(old(self).types(), old(self).view(), e.view(), exit@).term,
            out.1@ == dropped(old(self).types(), old(self).view(), e.view(), exit@).live,
        decreases size(e.view()), 1nat,
    {
        let ghost pool = self.types();
        let ghost want = dropped(pool, self.view(), e.view(), exit@);
        let ghost whole = size(e.view());
        let mut spine: Vec<SpineFrame> = Vec::new();
        let mut rest = e;
        loop
            invariant
                pool == old(self).types(),
                self.types() == pool,
                want.cx.ok,
                want == unwound(pool, spine@, dropped(pool, self.view(), rest.view(), exit@)),
                size(rest.view()) <= whole,
                whole == size(e.view()),
                forall|k: int| 0 <= k < spine@.len() ==> frame_is_smaller(#[trigger] spine@[k], whole),
            ensures
                self.types() == pool,
                want == unwound(pool, spine@, dropped(pool, self.view(), rest.view(), exit@)),
                size(rest.view()) <= whole,
                is_end(rest.view()),
                forall|k: int| 0 <= k < spine@.len() ==> frame_is_smaller(#[trigger] spine@[k], whole),
            decreases size(rest.view()),
        {
            let ghost cx = self.view();
            let ghost term = rest.view();
            let ghost frames = spine@;
            proof {
                unwound_failure_stays(pool, spine@, dropped(pool, cx, term, exit@));
            }
            match rest {
                CoreExpr::Let { bind, rhs, body } => {
                    let shape = ctor_shape(&rhs);
                    self.record_bind(&bind, shape);
                    spine.push(SpineFrame::Let { bind, rhs });
                    assert(spine@.drop_last() =~= frames);
                    rest = *body;
                },
                CoreExpr::LetJoin { bind, join, body } => {
                    self.record_bind(&bind, None);
                    spine.push(SpineFrame::Join { bind, join });
                    assert(spine@.drop_last() =~= frames);
                    rest = *body;
                },
                CoreExpr::LetCont { id, cont, body } => {
                    // Transformed before the body, so what it reads is known at
                    // every `Goto` the body holds. A continuation inside a join
                    // ends in that join's `Tail`s, so it shares the exit.
                    let ghost shared = dropped(pool, cx, cont.view(), exit@);
                    proof {
                        failure_stays(pool, with_cont(shared.cx, id, shared.live), body.view(), exit@);
                    }
                    let (cont, cont_live) = self.drop_pass(*cont, exit);
                    self.note_cont(id, cont_live);
                    spine.push(SpineFrame::Cont { id, cont });
                    assert(spine@.drop_last() =~= frames);
                    rest = *body;
                },
                CoreExpr::Drop { body, .. } => {
                    // Stripped and derived again, so the pass is safe to rerun.
                    rest = *body;
                },
                other => {
                    rest = other;
                    break;
                },
            }
        }
        let ghost mut at = dropped(pool, self.view(), rest.view(), exit@);
        proof {
            unwound_failure_stays(pool, spine@, at);
        }
        let (mut body, mut live) = self.drop_end(rest, exit);
        while spine.len() > 0
            invariant
                self.types() == pool,
                want.cx.ok,
                want == unwound(pool, spine@, at),
                self.view() == at.cx,
                body.view() == at.term,
                live@ == at.live,
                forall|k: int| 0 <= k < spine@.len() ==> frame_is_smaller(#[trigger] spine@[k], whole),
                whole == size(e.view()),
            decreases spine@.len(),
        {
            let ghost frames = spine@;
            assert(frame_is_smaller(spine@[spine@.len() - 1], whole));
            proof {
                unwound_failure_stays(pool, frames.drop_last(), rebuilt(pool, frames.last(), at));
            }
            if let Some(frame) = spine.pop() {
                let ghost next = rebuilt(pool, frame, at);
                match frame {
                    SpineFrame::Let { bind, rhs } => {
                        let rhs_live = atom_live(&rhs);
                        let mut dead = set_diff(&rhs_live, &live);
                        if !live.contains(&bind.id.0) {
                            dead.push(bind.id);
                        }
                        proof {
                            let tail = if !at.live.contains(bind.id.0) {
                                seq![bind.id]
                            } else {
                                Seq::empty()
                            };
                            assert(dead@ =~= ascending(rhs@.reads().difference(at.live)) + tail);
                        }
                        body = self.wrap_drops(&dead, None, body);
                        live.remove(&bind.id.0);
                        extend(&mut live, &rhs_live);
                        body = CoreExpr::Let { bind, rhs, body: Box::new(body) };
                    },
                    SpineFrame::Join { bind, join } => {
                        // Each `Tail` in the join is followed by `body`, so what
                        // `body` reads is live at every one of them, and passes
                        // through the join owned.
                        let read_by_body = live.remove(&bind.id.0);
                        let exit = Exit::Join { ty: bind.ty, after: live };
                        let (join, join_live) = self.drop_pass(*join, &exit);
                        if !read_by_body {
                            let mut dead: Vec<LocalId> = Vec::new();
                            dead.push(bind.id);
                            assert(dead@ =~= seq![bind.id]);
                            body = self.wrap_drops(&dead, None, body);
                        }
                        live = join_live;
                        body = CoreExpr::LetJoin { bind, join: Box::new(join), body: Box::new(body) };
                    },
                    SpineFrame::Cont { id, cont } => {
                        body = CoreExpr::LetCont { id, cont: Box::new(cont), body: Box::new(body) };
                    },
                }
                proof {
                    at = next;
                }
            }
        }
        (body, live)
    }

    /// Notes what the continuation `id` reads.
    fn note_cont(&mut self, id: JoinId, live: BTreeSet<u32>)
        ensures
            final(self).types() == old(self).types(),
            final(self).view() == with_cont(old(self).view(), id, live@),
    {
        self.cont_live.insert(id.0, live);
        assert(self.view() =~= with_cont(old(self).view(), id, live@));
    }

    /// Transforms the end of a spine.
    fn drop_end(&mut self, e: CoreExpr, exit: &Exit) -> (out: (CoreExpr, BTreeSet<u32>))
        requires
            is_end(e.view()),
            dropped(old(self).types(), old(self).view(), e.view(), exit@).cx.ok,
        ensures
            final(self).types() == old(self).types(),
            final(self).view() == dropped(old(self).types(), old(self).view(), e.view(), exit@).cx,
            out.0.view() == dropped(old(self).types(), old(self).view(), e.view(), exit@).term,
            out.1@ == dropped(old(self).types(), old(self).view(), e.view(), exit@).live,
        decreases size(e.view()), 0nat,
    {
        let ghost pool = self.types();
        let ghost cx = self.view();
        match e {
            CoreExpr::Tail(a) => self.drop_tail(a, exit),
            CoreExpr::Goto(id) => {
                // The edge hands the continuation exactly what it reads, so all
                // else is dropped before the jump.
                let live = self.cont_reads(id);
                (CoreExpr::Goto(id), live)
            },
            CoreExpr::If { cond, yes, no, ty } => {
                let ghost t = dropped(pool, cx, yes.view(), exit@);
                proof {
                    failure_stays(pool, t.cx, no.view(), exit@);
                }
                let (yes, live_t) = self.drop_pass(*yes, exit);
                let (no, live_f) = self.drop_pass(*no, exit);
                let dead_t = set_diff(&live_f, &live_t);
                let yes = self.wrap_drops(&dead_t, None, yes);
                let dead_f = set_diff(&live_t, &live_f);
                let no = self.wrap_drops(&dead_f, None, no);
                // `cond` is read here and never dropped: it is a Bool, a value
                // word, so it owns no cell on any path.
                let mut live = union(&live_t, &live_f);
                live.insert(cond.0);
                (CoreExpr::If { cond, yes: Box::new(yes), no: Box::new(no), ty }, live)
            },
            CoreExpr::Match { scrut, arms, ty } => {
                assert(e.view()->arms =~= arm_views(arms@));
                self.drop_match(scrut, arms, ty, exit)
            },
            e => {
                assert(false);
                (e, BTreeSet::new())
            },
        }
    }

    /// What a continuation met before reads.
    fn cont_reads(&self, id: JoinId) -> (live: BTreeSet<u32>)
        requires
            self.view().conts.contains_key(id.0),
        ensures
            live@ == self.view().conts[id.0],
    {
        match self.cont_live.get(&id.0) {
            Some(live) => live.clone(),
            None => BTreeSet::new(),
        }
    }

    /// Transforms a `Match`. It reads `scrut`; each arm then owns it, and drops it
    /// at its head unless some arm reads it again.
    pub fn drop_match(
        &mut self,
        scrut: LocalId,
        arms: Vec<(CorePat, CoreExpr)>,
        ty: RTy,
        exit: &Exit,
    ) -> (out: (CoreExpr, BTreeSet<u32>))
        requires
            dropped_arms(old(self).types(), old(self).view(), scrut, arm_views(arms@), exit@).cx.ok,
        ensures
            final(self).types() == old(self).types(),
            ({
                let pool = old(self).types();
                let d = finished_match(
                    pool,
                    scrut,
                    dropped_arms(pool, old(self).view(), scrut, arm_views(arms@), exit@),
                    ty,
                );
                final(self).view() == d.cx && out.0.view() == d.term && out.1@ == d.live
            }),
        decreases arms_size(arm_views(arms@)), 1nat,
    {
        let ghost pool = self.types();
        let ghost cx = self.view();
        let ghost views = arm_views(arms@);
        let ghost all = dropped_arms(pool, cx, scrut, views, exit@);
        let mut live_union: BTreeSet<u32> = BTreeSet::new();
        let mut lowered: Vec<LoweredArm> = Vec::new();
        assert(views.take(0).len() == 0);
        assert(lowered_views(lowered@) =~= Seq::empty());
        for (pat, body) in iter: arms.into_iter()
            invariant
                self.types() == pool,
                views == arm_views(iter.seq()),
                all == dropped_arms(pool, cx, scrut, views, exit@),
                all.cx.ok,
                arms_size(views) == arms_size(arm_views(arms@)),
                ({
                    let part = dropped_arms(pool, cx, scrut, views.take(iter.index()), exit@);
                    &&& self.view() == part.cx
                    &&& live_union@ == part.live
                    &&& lowered_views(lowered@) == part.arms
                }),
        {
            let ghost k = iter.index();
            let ghost part = dropped_arms(pool, cx, scrut, views.take(k), exit@);
            let ghost taken = lowered@;
            proof {
                assert(views.take(k + 1).drop_last() =~= views.take(k));
                assert(views.take(k + 1).last() == views[k]);
                prefix_failure_stays(pool, cx, scrut, views, exit@, k + 1);
                arm_is_smaller(views, k);
            }
            let (ids, scrut_shape) = self.record_pat(&pat, scrut);
            let (body, body_live) = self.drop_pass(body, exit);
            let dead_binders = unread(&ids, &body_live);
            let live = without(&body_live, &ids);
            assert(live@ =~= body_live@.difference(bound_set(pat@)));
            extend(&mut live_union, &live);
            lowered.push(LoweredArm { pat, body, live, dead_binders, scrut_shape });
            assert(lowered_views(lowered@) =~= lowered_views(taken).push(lowered@.last()@));
        }
        assert(views.take(views.len() as int) =~= views);
        let scrut_live_after = live_union.contains(&scrut.0);
        let mut out: Vec<(CorePat, CoreExpr)> = Vec::new();
        let ghost shown = lowered_views(lowered@);
        for a in iter: lowered.into_iter()
            invariant
                shown == lowered_views(iter.seq()),
                self.types() == pool,
                self.view() == all.cx,
                live_union@ == all.live,
                scrut_live_after == all.live.contains(scrut.0),
                out@.len() == iter.index(),
                forall|i: int|
                    0 <= i < out@.len() ==> (#[trigger] out@[i]).0@ == finished_arm(pool, all.cx, all.live, scrut, shown[i]).0
                        && out@[i].1.view() == finished_arm(pool, all.cx, all.live, scrut, shown[i]).1,
        {
            assert(a@ == shown[iter.index()]);
            // When the pattern proved the variant, the scrutinee's drop carries
            // that arity, so the reuse walk sees a sized token even for a type
            // with several variants.
            let mut drops = set_diff(&live_union, &a.live);
            if !scrut_live_after {
                drops.push(scrut);
            }
            let mut dead_binders = a.dead_binders;
            drops.append(&mut dead_binders);
            assert(drops@ =~= arm_drops(all.live, scrut, a@));
            let over = match a.scrut_shape {
                Some(s) => Some((scrut, s)),
                None => None,
            };
            let body = self.wrap_drops(&drops, over, a.body);
            out.push((a.pat, body));
        }
        live_union.insert(scrut.0);
        let e = CoreExpr::Match { scrut, arms: out, ty };
        assert(e.view()->arms =~= finished_match(pool, scrut, all, ty).term->arms);
        (e, live_union)
    }
}

/// The frame's join is part of a body of `whole` nodes.
pub open spec fn frame_is_smaller(frame: SpineFrame, whole: nat) -> bool {
    match frame {
        SpineFrame::Join { bind, join } => size(join.view()) < whole,
        _ => true,
    }
}

/// `e` is no `Let` of any kind and no `Drop`.
pub open spec fn is_end(e: Term) -> bool {
    match e {
        Term::Tail(_) => true,
        Term::Goto(_) => true,
        Term::If { .. } => true,
        Term::Match { .. } => true,
        _ => false,
    }
}

/// The views of some transformed arms.
pub open spec fn lowered_views(arms: Seq<LoweredArm>) -> Seq<crate::core_ir::drops::Arm> {
    Seq::new(arms.len(), |i: int| arms[i]@)
}

proof fn prefix_failure_stays(
    pool: ResolvedPool,
    cx: Cx,
    scrut: LocalId,
    arms: Seq<(PatView, Term)>,
    exit: ExitView,
    k: int,
)
    requires
        0 <= k <= arms.len(),
        dropped_arms(pool, cx, scrut, arms, exit).cx.ok,
    ensures
        dropped_arms(pool, cx, scrut, arms.take(k), exit).cx.ok,
    decreases arms.len() - k,
{
    if k == arms.len() {
        assert(arms.take(k) =~= arms);
    } else {
        prefix_failure_stays(pool, cx, scrut, arms, exit, k + 1);
        let more = arms.take(k + 1);
        assert(more.drop_last() =~= arms.take(k));
        let before = dropped_arms(pool, cx, scrut, arms.take(k), exit);
        record_all_keeps(before.cx, more.last().0.binds());
        failure_stays(pool, before.cx.record_pat(more.last().0, scrut), more.last().1, exit);
    }
}

/// The locals of `ids` that `live` lacks, in order.
fn unread(ids: &Vec<LocalId>, live: &BTreeSet<u32>) -> (out: Vec<LocalId>)
    ensures
        out@ == ids@.filter(|x: LocalId| !live@.contains(x.0)),
{
    let ghost keep = |x: LocalId| !live@.contains(x.0);
    let mut out: Vec<LocalId> = Vec::new();
    let mut k: usize = 0;
    assert(ids@.take(0).filter(keep) =~= Seq::empty()) by {
        reveal(Seq::filter);
    }
    while k < ids.len()
        invariant
            k <= ids@.len(),
            keep == (|x: LocalId| !live@.contains(x.0)),
            out@ == ids@.take(k as int).filter(keep),
        decreases ids@.len() - k,
    {
        assert(ids@.take(k + 1).drop_last() =~= ids@.take(k as int));
        assert(ids@.take(k + 1).filter(keep) == (if keep(ids@[k as int]) {
            ids@.take(k as int).filter(keep).push(ids@[k as int])
        } else {
            ids@.take(k as int).filter(keep)
        })) by {
            reveal(Seq::filter);
        }
        if !live.contains(&ids[k].0) {
            out.push(ids[k]);
        }
        k += 1;
    }
    assert(ids@.take(k as int) =~= ids@);
    out
}

/// `live` without the locals of `ids`.
fn without(live: &BTreeSet<u32>, ids: &Vec<LocalId>) -> (out: BTreeSet<u32>)
    ensures
        forall|n: u32| out@.contains(n) <==> live@.contains(n) && !ids@.contains(LocalId(n)),
{
    let mut out = live.clone();
    let mut k: usize = 0;
    while k < ids.len()
        invariant
            k <= ids@.len(),
            forall|n: u32| #[trigger] out@.contains(n) ==> live@.contains(n),
            forall|n: u32| live@.contains(n) && !ids@.contains(LocalId(n)) ==> out@.contains(n),
            forall|i: int| 0 <= i < k ==> !out@.contains(#[trigger] ids@[i].0),
        decreases ids@.len() - k,
    {
        assert(ids@.contains(ids@[k as int]));
        assert(ids@[k as int] == LocalId(ids@[k as int].0));
        out.remove(&ids[k].0);
        k += 1;
    }
    assert forall|n: u32| ids@.contains(LocalId(n)) implies !out@.contains(n) by {
        let i = choose|i: int| 0 <= i < ids@.len() && ids@[i] == LocalId(n);
        assert(!out@.contains(ids@[i].0));
    }
    out
}

/// What is known before anything is recorded.
pub open spec fn start(next_local: u32) -> Cx {
    Cx { next: next_local as int, ty: Map::empty(), shape: Map::empty(), conts: Map::empty(), ok: true }
}

/// `a` and `b` together.
fn union(a: &BTreeSet<u32>, b: &BTreeSet<u32>) -> (out: BTreeSet<u32>)
    ensures
        out@ == a@.union(b@),
{
    let mut out = a.clone();
    extend(&mut out, b);
    out
}

/// Adds what `b` holds to `a`.
fn extend(a: &mut BTreeSet<u32>, b: &BTreeSet<u32>)
    ensures
        final(a)@ == old(a)@.union(b@),
{
    let ids = members(b);
    let mut k: usize = 0;
    while k < ids.len()
        invariant
            k <= ids@.len(),
            forall|n: u32| a@.contains(n) <==> old(a)@.contains(n) || ids@.take(k as int).contains(LocalId(n)),
        decreases ids@.len() - k,
    {
        let ghost before = ids@.take(k as int);
        assert(ids@.take(k + 1) =~= before.push(ids@[k as int]));
        a.insert(ids[k].0);
        assert forall|n: u32| a@.contains(n) <==> old(a)@.contains(n) || ids@.take(k + 1).contains(LocalId(n)) by {
            let now = ids@.take(k + 1);
            if now.contains(LocalId(n)) {
                let i = choose|i: int| 0 <= i < now.len() && now[i] == LocalId(n);
                if i < k {
                    assert(before[i] == LocalId(n));
                }
            }
            if before.contains(LocalId(n)) {
                let i = choose|i: int| 0 <= i < before.len() && before[i] == LocalId(n);
                assert(now[i] == LocalId(n));
            }
            assert(now[k as int] == ids@[k as int]);
        }
        k += 1;
    }
    assert(ids@.take(k as int) =~= ids@);
    assert(a@ =~= old(a)@.union(b@));
}

/// The locals an atom reads. A duplicate operand collapses.
pub fn atom_live(a: &Atom) -> (live: BTreeSet<u32>)
    ensures
        live@ == a@.reads(),
{
    let mut live: BTreeSet<u32> = BTreeSet::new();
    match a {
        Atom::Local(x) => {
            live.insert(x.0);
            assert(a@.operands()[0] == *x);
        },
        Atom::Move(x) => {
            live.insert(x.0);
            assert(a@.operands()[0] == *x);
        },
        Atom::Const(_) => {},
        Atom::Nil => {},
        Atom::Prim { args, .. } => {
            insert_all(&mut live, args);
        },
        Atom::Ctor { fields, .. } => {
            insert_all(&mut live, fields);
        },
        Atom::Call { args, .. } => {
            insert_all(&mut live, args);
        },
    }
    assert(live@ =~= a@.reads());
    live
}

/// Adds the numbers of `ids` to `s`.
fn insert_all(s: &mut BTreeSet<u32>, ids: &Vec<LocalId>)
    ensures
        forall|n: u32| final(s)@.contains(n) <==> old(s)@.contains(n) || ids@.contains(LocalId(n)),
{
    let mut k: usize = 0;
    while k < ids.len()
        invariant
            k <= ids@.len(),
            forall|n: u32| #[trigger] s@.contains(n) ==> old(s)@.contains(n) || ids@.contains(LocalId(n)),
            forall|n: u32| old(s)@.contains(n) ==> s@.contains(n),
            forall|i: int| 0 <= i < k ==> s@.contains(#[trigger] ids@[i].0),
        decreases ids@.len() - k,
    {
        assert(ids@.contains(ids@[k as int]));
        assert(ids@[k as int] == LocalId(ids@[k as int].0));
        s.insert(ids[k].0);
        k += 1;
    }
    assert forall|n: u32| ids@.contains(LocalId(n)) implies s@.contains(n) by {
        let i = choose|i: int| 0 <= i < ids@.len() && ids@[i] == LocalId(n);
        assert(s@.contains(ids@[i].0));
    }
}

/// Known allocation shape of a `Let`'s rhs. Only a `Ctor` proves a shape: a call's
/// result has no statically known arity.
pub fn ctor_shape(a: &Atom) -> (shape: Option<ReuseShape>)
    ensures
        shape == a@.shape(),
{
    match a {
        Atom::Ctor { fields, .. } => Some(ReuseShape::ctor(fields.len())),
        _ => None,
    }
}

} // verus!
