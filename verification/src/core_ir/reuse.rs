//! Which constructors overwrite a cell that was just released.
//!
//! A `Drop` of known shape parks the emptied cell in its slot. A later `Ctor` of
//! the same shape takes it, last parked first.
use vstd::prelude::*;

use crate::core_ir::perceus::{arm_is_smaller, arm_views, arms_size, is_end, size};
use crate::core_ir::{
    Atom, AtomView, Callee, CoreBind, CoreExpr, CorePat, JoinId, LocalId, PatView, ReuseShape, Term,
};

verus! {

/// An emptied cell available for a later `Ctor` of the same shape to overwrite.
#[derive(Clone, Copy, PartialEq, Eq, Structural, Debug)]
pub struct Token {
    pub slot: LocalId,
    pub shape: ReuseShape,
    /// Parked by the previous iteration of a loop. Its slot may be bound inside
    /// any branch, so only the `Let` that binds the slot is sure to have it in
    /// scope: such a token pairs with its own slot only.
    pub carried: bool,
}

/// The place of the last token that `p` picks.
pub open spec fn last_where(q: Seq<Token>, p: spec_fn(Token) -> bool) -> Option<int>
    decreases q.len(),
{
    if q.len() == 0 {
        None
    } else if p(q.last()) {
        Some(q.len() - 1)
    } else {
        last_where(q.drop_last(), p)
    }
}

/// The place of the token that `let bind = Ctor` of shape `want` takes: the one of
/// its own slot, which the store is about to overwrite, or else the last one
/// parked in this iteration.
pub open spec fn let_pick(avail: Seq<Token>, bind: LocalId, want: ReuseShape) -> Option<int> {
    match last_where(avail, |t: Token| t.slot == bind && t.shape == want) {
        Some(i) => Some(i),
        None => tail_pick(avail, want),
    }
}

/// The place of the token that a `Ctor` of shape `want` with no slot of its own
/// takes.
pub open spec fn tail_pick(avail: Seq<Token>, want: ReuseShape) -> Option<int> {
    last_where(avail, |t: Token| !t.carried && t.shape == want)
}

/// `a` overwriting the cell in `slot`.
pub open spec fn reusing(a: AtomView, slot: LocalId) -> AtomView {
    match a {
        AtomView::Ctor { variant, fields, reuse } => AtomView::Ctor { variant, fields, reuse: Some(slot) },
        _ => a,
    }
}

/// `a`, taking the token at `pick` if there is one, and the tokens left.
pub open spec fn take(a: AtomView, avail: Seq<Token>, pick: Option<int>) -> (AtomView, Seq<Token>) {
    match pick {
        Some(i) => (reusing(a, avail[i].slot), avail.remove(i)),
        None => (a, avail),
    }
}

/// What `let bind = a` takes, and what it leaves.
pub open spec fn let_take(bind: LocalId, a: AtomView, avail: Seq<Token>) -> (AtomView, Seq<Token>) {
    match a.shape() {
        Some(want) => take(a, avail, let_pick(avail, bind, want)),
        None => (a, avail),
    }
}

/// What a `Tail` of `a` takes, and what it leaves.
pub open spec fn tail_take(a: AtomView, avail: Seq<Token>) -> (AtomView, Seq<Token>) {
    match a.shape() {
        Some(want) => take(a, avail, tail_pick(avail, want)),
        None => (a, avail),
    }
}

/// The tokens of other slots than `bind`, which now holds a live value.
pub open spec fn besides(avail: Seq<Token>, bind: LocalId) -> Seq<Token> {
    avail.filter(|t: Token| t.slot != bind)
}

/// The tokens after a `Drop`. A cell with no payload has nothing to reuse.
pub open spec fn parked(avail: Seq<Token>, local: LocalId, shape: Option<ReuseShape>) -> Seq<Token> {
    match shape {
        Some(s) => if s.fields > 0 {
            avail.push(Token { slot: local, shape: s, carried: false })
        } else {
            avail
        },
        None => avail,
    }
}

/// `t` is on every list.
pub open spec fn on_each(lists: Seq<Seq<Token>>, t: Token) -> bool {
    forall|k: int| 0 <= k < lists.len() ==> (#[trigger] lists[k]).contains(t)
}

/// What is on every list, in the order of the first.
pub open spec fn on_all(lists: Seq<Seq<Token>>) -> Seq<Token> {
    if lists.len() == 0 {
        Seq::empty()
    } else {
        lists[0].filter(|t: Token| on_each(lists, t))
    }
}

/// What a walk leaves of a body.
pub struct Paired {
    pub term: Term,
    /// The tokens at each self tail call met.
    pub tails: Seq<Seq<Token>>,
    /// Inside a join, the tokens at each `Tail` met.
    pub exits: Option<Seq<Seq<Token>>>,
}

/// `a` calls the function it stands in.
pub open spec fn calls_self(a: AtomView) -> bool {
    match a {
        AtomView::Call { callee, args } => callee == Callee::Self_,
        _ => false,
    }
}

/// The walk of `e` with `avail` parked. `exits` is there inside a join.
pub open spec fn paired(
    e: Term,
    avail: Seq<Token>,
    tails: Seq<Seq<Token>>,
    exits: Option<Seq<Seq<Token>>>,
) -> Paired
    decreases e,
{
    match e {
        Term::Drop { local, shape, body } => {
            let rest = paired(*body, parked(avail, local, shape), tails, exits);
            Paired { term: Term::Drop { local, shape, body: Box::new(rest.term) }, ..rest }
        },
        Term::Let { bind, rhs, body } => {
            let (rhs, left) = let_take(bind.id, rhs, avail);
            let rest = paired(*body, besides(left, bind.id), tails, exits);
            Paired { term: Term::Let { bind, rhs, body: Box::new(rest.term) }, ..rest }
        },
        Term::LetJoin { bind, join, body } => {
            let inner = paired(*join, avail, tails, Some(Seq::empty()));
            let left = on_all(inner.exits->0);
            let rest = paired(*body, besides(left, bind.id), inner.tails, exits);
            Paired {
                term: Term::LetJoin { bind, join: Box::new(inner.term), body: Box::new(rest.term) },
                ..rest
            }
        },
        Term::LetCont { id, cont, body } => {
            let shared = paired(*cont, Seq::empty(), tails, exits);
            let rest = paired(*body, avail, shared.tails, shared.exits);
            Paired {
                term: Term::LetCont { id, cont: Box::new(shared.term), body: Box::new(rest.term) },
                ..rest
            }
        },
        Term::If { cond, yes, no, ty } => {
            let t = paired(*yes, avail, tails, exits);
            let f = paired(*no, avail, t.tails, t.exits);
            Paired { term: Term::If { cond, yes: Box::new(t.term), no: Box::new(f.term), ty }, ..f }
        },
        Term::Match { scrut, arms, ty } => {
            let all = paired_arms(arms, avail, tails, exits);
            Paired { term: Term::Match { scrut, arms: all.arms, ty }, tails: all.tails, exits: all.exits }
        },
        Term::Tail(a) => {
            let (a, left) = tail_take(a, avail);
            Paired {
                term: Term::Tail(a),
                tails: if calls_self(a) && exits is None {
                    tails.push(left)
                } else {
                    tails
                },
                exits: match exits {
                    Some(x) => Some(x.push(left)),
                    None => None,
                },
            }
        },
        Term::Goto(id) => Paired { term: e, tails, exits },
    }
}

/// What a walk leaves of some arms.
pub struct PairedArms {
    pub arms: Seq<(PatView, Term)>,
    pub tails: Seq<Seq<Token>>,
    pub exits: Option<Seq<Seq<Token>>>,
}

/// The walk of some arms, each with `avail` parked.
pub open spec fn paired_arms(
    arms: Seq<(PatView, Term)>,
    avail: Seq<Token>,
    tails: Seq<Seq<Token>>,
    exits: Option<Seq<Seq<Token>>>,
) -> PairedArms
    decreases arms,
{
    if arms.len() == 0 {
        PairedArms { arms: Seq::empty(), tails, exits }
    } else {
        let before = paired_arms(arms.drop_last(), avail, tails, exits);
        let last = paired(arms.last().1, avail, before.tails, before.exits);
        PairedArms {
            arms: before.arms.push((arms.last().0, last.term)),
            tails: last.tails,
            exits: last.exits,
        }
    }
}

/// What a second walk starts with: the tokens at every self tail call, as carried
/// ones. `None` if there are none.
pub open spec fn seed(tails: Seq<Seq<Token>>) -> Option<Seq<Token>> {
    let all = on_all(tails).map_values(|t: Token| Token { carried: true, ..t });
    if all.len() == 0 {
        None
    } else {
        Some(all)
    }
}

/// Both walks of a body.
pub open spec fn reused(e: Term) -> Term {
    let first = paired(e, Seq::empty(), Seq::empty(), None);
    match seed(first.tails) {
        Some(avail) => paired(first.term, avail, Seq::empty(), None).term,
        None => first.term,
    }
}

/// State of one function's reuse walk.
pub struct ReuseWalk {
    /// Token sets reaching each self tail call of the current walk.
    self_tails: Vec<Vec<Token>>,
}

/// The views of some lists.
pub open spec fn list_views(lists: Seq<Vec<Token>>) -> Seq<Seq<Token>> {
    lists.map_values(|v: Vec<Token>| v@)
}

/// The views of some lists, if there are any.
pub open spec fn exit_views(exits: Option<Vec<Vec<Token>>>) -> Option<Seq<Seq<Token>>> {
    match exits {
        Some(x) => Some(list_views(x@)),
        None => None,
    }
}

/// One node peeled off the spine, its own part walked already.
pub enum WalkedFrame {
    Let { bind: CoreBind, rhs: Atom },
    Join { bind: CoreBind, join: CoreExpr },
    Cont { id: JoinId, cont: CoreExpr },
    Drop { local: LocalId, shape: Option<ReuseShape> },
}

/// The body a frame makes of another.
pub open spec fn put_back(frame: WalkedFrame, body: Term) -> Term {
    match frame {
        WalkedFrame::Let { bind, rhs } => Term::Let { bind, rhs: rhs@, body: Box::new(body) },
        WalkedFrame::Join { bind, join } => Term::LetJoin {
            bind,
            join: Box::new(join.view()),
            body: Box::new(body),
        },
        WalkedFrame::Cont { id, cont } => Term::LetCont {
            id,
            cont: Box::new(cont.view()),
            body: Box::new(body),
        },
        WalkedFrame::Drop { local, shape } => Term::Drop { local, shape, body: Box::new(body) },
    }
}

/// The body a spine makes of another, innermost frame last.
pub open spec fn put_all_back(spine: Seq<WalkedFrame>, body: Term) -> Term
    decreases spine.len(),
{
    if spine.len() == 0 {
        body
    } else {
        put_all_back(spine.drop_last(), put_back(spine.last(), body))
    }
}

/// A walk of `e` with `rest` still to do, behind a spine of what is done.
pub open spec fn resumed(spine: Seq<WalkedFrame>, rest: Paired) -> Paired {
    Paired { term: put_all_back(spine, rest.term), ..rest }
}

/// Frame-limited reuse over a body, with a second seeded walk for the tokens a
/// loop carries.
pub fn reuse_pass(body: CoreExpr) -> (out: CoreExpr)
    ensures
        out.view() == reused(body.view()),
{
    let ghost first = paired(body.view(), Seq::empty(), Seq::empty(), None);
    let mut walk = ReuseWalk { self_tails: Vec::new() };
    assert(list_views(walk.self_tails@) =~= Seq::empty());
    let none: Vec<Token> = Vec::new();
    let (body, _) = walk.pair(body, none, None);
    // Only tokens present at every self tail call dominate the loop head.
    let again = walk.back_edge_seed();
    match again {
        Some(avail) => {
            assert(list_views(walk.self_tails@) =~= Seq::empty());
            let (body, _) = walk.pair(body, avail, None);
            body
        },
        None => body,
    }
}

impl ReuseWalk {
    /// The token sets met so far.
    pub closed spec fn tails(&self) -> Seq<Seq<Token>> {
        list_views(self.self_tails@)
    }

    /// The tokens a second walk starts with. Forgets the sets met, so a later walk
    /// cannot mix in stale ones.
    pub fn back_edge_seed(&mut self) -> (out: Option<Vec<Token>>)
        ensures
            final(self).tails() == Seq::<Seq<Token>>::empty(),
            match out {
                Some(q) => seed(old(self).tails()) == Some(q@),
                None => seed(old(self).tails()) is None,
            },
    {
        let mut tails: Vec<Vec<Token>> = Vec::new();
        std::mem::swap(&mut tails, &mut self.self_tails);
        assert(self.tails() =~= Seq::empty());
        let common = common_tokens(&tails);
        if common.len() == 0 {
            assert(on_all(list_views(tails@)).len() == 0);
            return None;
        }
        let mut out: Vec<Token> = Vec::new();
        let mut k: usize = 0;
        while k < common.len()
            invariant
                k <= common@.len(),
                out@.len() == k,
                forall|i: int| 0 <= i < k ==> out@[i] == (Token { carried: true, ..common@[i] }),
            decreases common@.len() - k,
        {
            let t = common[k];
            out.push(Token { slot: t.slot, shape: t.shape, carried: true });
            k += 1;
        }
        assert(out@ =~= on_all(list_views(tails@)).map_values(|t: Token| Token { carried: true, ..t }));
        Some(out)
    }

    /// Reuse pairing over `e`. `avail` is the stack of emptied cells dominating it,
    /// forked at branches, noted at self tail calls. `exits` is there inside a
    /// join: it collects the stack reaching each `Tail`.
    pub fn pair(&mut self, e: CoreExpr, avail: Vec<Token>, exits: Option<Vec<Vec<Token>>>) -> (out: (
        CoreExpr,
        Option<Vec<Vec<Token>>>,
    ))
        ensures
            ({
                let p = paired(e.view(), avail@, old(self).tails(), exit_views(exits));
                &&& out.0.view() == p.term
                &&& final(self).tails() == p.tails
                &&& exit_views(out.1) == p.exits
            }),
        decreases size(e.view()), 1nat,
    {
        let ghost want = paired(e.view(), avail@, self.tails(), exit_views(exits));
        let ghost whole = size(e.view());
        let mut spine: Vec<WalkedFrame> = Vec::new();
        let mut rest = e;
        let mut avail = avail;
        let mut exits = exits;
        loop
            invariant
                want == resumed(spine@, paired(rest.view(), avail@, self.tails(), exit_views(exits))),
                size(rest.view()) <= whole,
                whole == size(e.view()),
            ensures
                want == resumed(spine@, paired(rest.view(), avail@, self.tails(), exit_views(exits))),
                size(rest.view()) <= whole,
                is_end(rest.view()),
            decreases size(rest.view()),
        {
            let ghost frames = spine@;
            match rest {
                CoreExpr::Drop { local, shape, body } => {
                    if let Some(s) = shape {
                        if s.fields > 0 {
                            avail.push(Token { slot: local, shape: s, carried: false });
                        }
                    }
                    spine.push(WalkedFrame::Drop { local, shape });
                    assert(spine@.drop_last() =~= frames);
                    rest = *body;
                },
                CoreExpr::Let { bind, rhs, body } => {
                    // A call in `rhs` does not invalidate tokens: the parked cell
                    // lives in this frame's slot, untouched by the callee.
                    let (rhs, left) = pair_let(bind.id, rhs, avail);
                    // The slot now holds a live value; a token for it would read
                    // that, not an emptied cell.
                    avail = retain_besides(&left, bind.id);
                    spine.push(WalkedFrame::Let { bind, rhs });
                    assert(spine@.drop_last() =~= frames);
                    rest = *body;
                },
                CoreExpr::LetJoin { bind, join, body } => {
                    // The code after the join is reached from each of its exits,
                    // so a cell is still parked there only if it is on every one.
                    let none: Vec<Vec<Token>> = Vec::new();
                    assert(list_views(none@) =~= Seq::empty());
                    proof {
                        exits_stay(join.view(), avail@, self.tails(), Some(Seq::empty()));
                    }
                    let (join, inner) = self.pair(*join, avail, Some(none));
                    let left = match inner {
                        Some(lists) => common_tokens(&lists),
                        None => Vec::new(),
                    };
                    avail = retain_besides(&left, bind.id);
                    spine.push(WalkedFrame::Join { bind, join });
                    assert(spine@.drop_last() =~= frames);
                    rest = *body;
                },
                CoreExpr::LetCont { id, cont, body } => {
                    // A shared continuation is entered from many edges, and a token
                    // parked on one may be a live slot on another, so it starts
                    // with none. Naming it runs nothing.
                    let none: Vec<Token> = Vec::new();
                    assert(none@ =~= Seq::empty());
                    let (cont, after) = self.pair(*cont, none, exits);
                    exits = after;
                    spine.push(WalkedFrame::Cont { id, cont });
                    assert(spine@.drop_last() =~= frames);
                    rest = *body;
                },
                other => {
                    rest = other;
                    break;
                },
            }
        }
        let ghost end = paired(rest.view(), avail@, self.tails(), exit_views(exits));
        let (mut body, exits) = self.pair_end(rest, avail, exits);
        while spine.len() > 0
            invariant
                want.term == put_all_back(spine@, body.view()),
            decreases spine@.len(),
        {
            if let Some(frame) = spine.pop() {
                body = match frame {
                    WalkedFrame::Let { bind, rhs } => CoreExpr::Let { bind, rhs, body: Box::new(body) },
                    WalkedFrame::Join { bind, join } => CoreExpr::LetJoin {
                        bind,
                        join: Box::new(join),
                        body: Box::new(body),
                    },
                    WalkedFrame::Cont { id, cont } => CoreExpr::LetCont {
                        id,
                        cont: Box::new(cont),
                        body: Box::new(body),
                    },
                    WalkedFrame::Drop { local, shape } => CoreExpr::Drop { local, shape, body: Box::new(body) },
                };
            }
        }
        (body, exits)
    }

    /// The end of a spine.
    fn pair_end(&mut self, e: CoreExpr, avail: Vec<Token>, exits: Option<Vec<Vec<Token>>>) -> (out: (
        CoreExpr,
        Option<Vec<Vec<Token>>>,
    ))
        requires
            is_end(e.view()),
        ensures
            ({
                let p = paired(e.view(), avail@, old(self).tails(), exit_views(exits));
                &&& out.0.view() == p.term
                &&& final(self).tails() == p.tails
                &&& exit_views(out.1) == p.exits
            }),
        decreases size(e.view()), 0nat,
    {
        match e {
            CoreExpr::If { cond, yes, no, ty } => {
                let forked = copy_tokens(&avail);
                let (yes, exits) = self.pair(*yes, avail, exits);
                let (no, exits) = self.pair(*no, forked, exits);
                (CoreExpr::If { cond, yes: Box::new(yes), no: Box::new(no), ty }, exits)
            },
            CoreExpr::Match { scrut, arms, ty } => {
                assert(e.view()->arms =~= arm_views(arms@));
                let ghost views = arm_views(arms@);
                let ghost tails = self.tails();
                let ghost met = exit_views(exits);
                let mut exits = exits;
                let mut out: Vec<(CorePat, CoreExpr)> = Vec::new();
                assert(views.take(0).len() == 0);
                assert(arm_views(out@) =~= Seq::empty());
                for (pat, body) in iter: arms.into_iter()
                    invariant
                        views == arm_views(iter.seq()),
                        size(e.view()) == 1 + arms_size(views),
                        ({
                            let part = paired_arms(views.take(iter.index()), avail@, tails, met);
                            &&& arm_views(out@) == part.arms
                            &&& self.tails() == part.tails
                            &&& exit_views(exits) == part.exits
                        }),
                {
                    let ghost k = iter.index();
                    let ghost taken = out@;
                    proof {
                        assert(views.take(k + 1).drop_last() =~= views.take(k));
                        assert(views.take(k + 1).last() == views[k]);
                        arm_is_smaller(views, k);
                    }
                    let forked = copy_tokens(&avail);
                    let (body, after) = self.pair(body, forked, exits);
                    exits = after;
                    out.push((pat, body));
                    assert(arm_views(out@) =~= arm_views(taken).push((pat@, body.view())));
                }
                assert(views.take(views.len() as int) =~= views);
                let e = CoreExpr::Match { scrut, arms: out, ty };
                assert(e.view()->arms =~= arm_views(out@));
                (e, exits)
            },
            CoreExpr::Tail(a) => {
                let (a, left) = pair_tail(a, avail);
                let mut exits = exits;
                if let Some(mut x) = exits {
                    let ghost before = x@;
                    x.push(left);
                    assert(list_views(x@) =~= list_views(before).push(left@));
                    exits = Some(x);
                } else {
                    // In a join this is an ordinary call, not a back edge.
                    if is_self_call(&a) {
                        let ghost before = self.self_tails@;
                        self.self_tails.push(left);
                        assert(list_views(self.self_tails@) =~= list_views(before).push(left@));
                    }
                    exits = None;
                }
                (CoreExpr::Tail(a), exits)
            },
            // Tokens die at the edge: the target starts with none.
            e => (e, exits),
        }
    }
}

/// Whether an atom calls the function it stands in.
fn is_self_call(a: &Atom) -> (yes: bool)
    ensures
        yes == calls_self(a@),
{
    match a {
        Atom::Call { callee, .. } => matches!(callee, Callee::Self_),
        _ => false,
    }
}

/// Where `exits` is there before a walk, it is there after it.
pub proof fn exits_stay(e: Term, avail: Seq<Token>, tails: Seq<Seq<Token>>, exits: Option<Seq<Seq<Token>>>)
    ensures
        (paired(e, avail, tails, exits).exits is Some) == (exits is Some),
    decreases e,
{
    match e {
        Term::Drop { local, shape, body } => {
            exits_stay(*body, parked(avail, local, shape), tails, exits);
        },
        Term::Let { bind, rhs, body } => {
            let left = let_take(bind.id, rhs, avail).1;
            exits_stay(*body, besides(left, bind.id), tails, exits);
        },
        Term::LetJoin { bind, join, body } => {
            let inner = paired(*join, avail, tails, Some(Seq::empty()));
            exits_stay(*body, besides(on_all(inner.exits->0), bind.id), inner.tails, exits);
        },
        Term::LetCont { id, cont, body } => {
            exits_stay(*cont, Seq::empty(), tails, exits);
            let shared = paired(*cont, Seq::empty(), tails, exits);
            exits_stay(*body, avail, shared.tails, shared.exits);
        },
        Term::If { cond, yes, no, ty } => {
            exits_stay(*yes, avail, tails, exits);
            let t = paired(*yes, avail, tails, exits);
            exits_stay(*no, avail, t.tails, t.exits);
        },
        Term::Match { scrut, arms, ty } => {
            arms_exits_stay(arms, avail, tails, exits);
        },
        Term::Tail(a) => {},
        Term::Goto(id) => {},
    }
}

/// The same of some arms.
pub proof fn arms_exits_stay(
    arms: Seq<(PatView, Term)>,
    avail: Seq<Token>,
    tails: Seq<Seq<Token>>,
    exits: Option<Seq<Seq<Token>>>,
)
    ensures
        (paired_arms(arms, avail, tails, exits).exits is Some) == (exits is Some),
    decreases arms,
{
    if arms.len() > 0 {
        let before = paired_arms(arms.drop_last(), avail, tails, exits);
        arms_exits_stay(arms.drop_last(), avail, tails, exits);
        exits_stay(arms.last().1, avail, before.tails, before.exits);
    }
}

/// A copy of a stack.
fn copy_tokens(avail: &Vec<Token>) -> (out: Vec<Token>)
    ensures
        out@ == avail@,
{
    let mut out: Vec<Token> = Vec::new();
    let mut k: usize = 0;
    while k < avail.len()
        invariant
            k <= avail@.len(),
            out@ == avail@.take(k as int),
        decreases avail@.len() - k,
    {
        assert(avail@.take(k + 1) =~= avail@.take(k as int).push(avail@[k as int]));
        out.push(avail[k]);
        k += 1;
    }
    assert(avail@.take(k as int) =~= avail@);
    out
}

/// The stack without tokens of the slot `bind`.
fn retain_besides(avail: &Vec<Token>, bind: LocalId) -> (out: Vec<Token>)
    ensures
        out@ == besides(avail@, bind),
{
    let ghost keep = |t: Token| t.slot != bind;
    let mut out: Vec<Token> = Vec::new();
    let mut k: usize = 0;
    assert(avail@.take(0).filter(keep) =~= Seq::empty()) by {
        reveal(Seq::filter);
    }
    while k < avail.len()
        invariant
            k <= avail@.len(),
            keep == (|t: Token| t.slot != bind),
            out@ == avail@.take(k as int).filter(keep),
        decreases avail@.len() - k,
    {
        assert(avail@.take(k + 1).drop_last() =~= avail@.take(k as int));
        assert(avail@.take(k + 1).filter(keep) == (if keep(avail@[k as int]) {
            avail@.take(k as int).filter(keep).push(avail@[k as int])
        } else {
            avail@.take(k as int).filter(keep)
        })) by {
            reveal(Seq::filter);
        }
        if avail[k].slot != bind {
            out.push(avail[k]);
        }
        k += 1;
    }
    assert(avail@.take(k as int) =~= avail@);
    out
}

/// The tokens on every list, in the order of the first.
fn common_tokens(lists: &Vec<Vec<Token>>) -> (out: Vec<Token>)
    ensures
        out@ == on_all(list_views(lists@)),
{
    let ghost views = list_views(lists@);
    let mut out: Vec<Token> = Vec::new();
    if lists.len() == 0 {
        return out;
    }
    let first = &lists[0];
    let ghost keep = |t: Token| on_each(views, t);
    let mut k: usize = 0;
    assert(first@.take(0).filter(keep) =~= Seq::empty()) by {
        reveal(Seq::filter);
    }
    while k < first.len()
        invariant
            k <= first@.len(),
            views == list_views(lists@),
            keep == (|t: Token| on_each(views, t)),
            out@ == first@.take(k as int).filter(keep),
        decreases first@.len() - k,
    {
        assert(first@.take(k + 1).drop_last() =~= first@.take(k as int));
        assert(first@.take(k + 1).filter(keep) == (if keep(first@[k as int]) {
            first@.take(k as int).filter(keep).push(first@[k as int])
        } else {
            first@.take(k as int).filter(keep)
        })) by {
            reveal(Seq::filter);
        }
        if in_each(lists, first[k]) {
            out.push(first[k]);
        }
        k += 1;
    }
    assert(first@.take(k as int) =~= first@);
    assert(views[0] == first@);
    out
}

/// Whether `t` is on every list.
fn in_each(lists: &Vec<Vec<Token>>, t: Token) -> (yes: bool)
    ensures
        yes == on_each(list_views(lists@), t),
{
    let mut k: usize = 0;
    while k < lists.len()
        invariant
            k <= lists@.len(),
            forall|i: int| 0 <= i < k ==> (#[trigger] list_views(lists@)[i]).contains(t),
        decreases lists@.len() - k,
    {
        assert(list_views(lists@)[k as int] == lists@[k as int]@);
        if !holds_token(&lists[k], t) {
            return false;
        }
        k += 1;
    }
    true
}

/// Whether a stack holds `t`.
fn holds_token(avail: &Vec<Token>, t: Token) -> (yes: bool)
    ensures
        yes == avail@.contains(t),
{
    let mut k: usize = 0;
    while k < avail.len()
        invariant
            k <= avail@.len(),
            forall|i: int| 0 <= i < k ==> avail@[i] != t,
        decreases avail@.len() - k,
    {
        if avail[k] == t {
            return true;
        }
        k += 1;
    }
    false
}

/// The place of the last token of shape `want` that is in the slot `own`, if that
/// is given, else that is not carried.
fn last_fit(avail: &Vec<Token>, own: Option<LocalId>, want: ReuseShape) -> (out: Option<usize>)
    ensures
        ({
            let place = match own {
                Some(bind) => last_where(avail@, |t: Token| t.slot == bind && t.shape == want),
                None => tail_pick(avail@, want),
            };
            match out {
                Some(i) => place == Some(i as int) && i < avail@.len(),
                None => place is None,
            }
        }),
{
    let ghost p = match own {
        Some(bind) => |t: Token| t.slot == bind && t.shape == want,
        None => |t: Token| !t.carried && t.shape == want,
    };
    let mut k: usize = avail.len();
    assert(avail@.take(k as int) =~= avail@);
    while k > 0
        invariant
            k <= avail@.len(),
            p == (match own {
                Some(bind) => |t: Token| t.slot == bind && t.shape == want,
                None => |t: Token| !t.carried && t.shape == want,
            }),
            last_where(avail@, p) == last_where(avail@.take(k as int), p),
        decreases k,
    {
        k -= 1;
        let t = avail[k];
        assert(avail@.take(k + 1).drop_last() =~= avail@.take(k as int));
        assert(avail@.take(k + 1).last() == t);
        let fits = match own {
            Some(bind) => t.slot == bind && t.shape == want,
            None => !t.carried && t.shape == want,
        };
        assert(fits == p(t));
        if fits {
            return Some(k);
        }
    }
    None
}

/// What `let bind = a` takes, and what it leaves.
fn pair_let(bind: LocalId, a: Atom, avail: Vec<Token>) -> (out: (Atom, Vec<Token>))
    ensures
        out.0@ == let_take(bind, a@, avail@).0,
        out.1@ == let_take(bind, a@, avail@).1,
{
    match a {
        Atom::Ctor { variant, fields, reuse } => {
            let want = ReuseShape::ctor(fields.len());
            let own = last_fit(&avail, Some(bind), want);
            let pick = match own {
                Some(i) => Some(i),
                None => last_fit(&avail, None, want),
            };
            let mut avail = avail;
            match pick {
                Some(i) => {
                    let t = avail.remove(i);
                    (Atom::Ctor { variant, fields, reuse: Some(t.slot) }, avail)
                },
                None => (Atom::Ctor { variant, fields, reuse }, avail),
            }
        },
        a => (a, avail),
    }
}

/// What a `Tail` of `a` takes, and what it leaves.
fn pair_tail(a: Atom, avail: Vec<Token>) -> (out: (Atom, Vec<Token>))
    ensures
        out.0@ == tail_take(a@, avail@).0,
        out.1@ == tail_take(a@, avail@).1,
{
    match a {
        Atom::Ctor { variant, fields, reuse } => {
            let want = ReuseShape::ctor(fields.len());
            let mut avail = avail;
            match last_fit(&avail, None, want) {
                Some(i) => {
                    let t = avail.remove(i);
                    (Atom::Ctor { variant, fields, reuse: Some(t.slot) }, avail)
                },
                None => (Atom::Ctor { variant, fields, reuse }, avail),
            }
        },
        a => (a, avail),
    }
}

} // verus!
