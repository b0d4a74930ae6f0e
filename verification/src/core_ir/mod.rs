//! Core IR: a function body in A-normal form.
//!
//! Every executable type here has a mathematical view. The view of a body is a
//! [`Term`], in which operands and arms are sequences.
pub mod balance;
pub mod drops;
pub mod extent;
pub mod frame_reuse;
pub mod globals;
pub mod ids;
pub mod mentions;
pub mod nodes;
pub mod pairing;
pub mod perceus;
pub mod promptness;
pub mod rerun;
pub mod reuse;
pub mod second_pass;
pub mod second_walk;
pub mod single_binds;
pub mod stacks;
pub mod types;

use vstd::prelude::*;

use crate::core_ir::types::RTy;

verus! {

/// A local slot of one function.
#[derive(Clone, Copy, PartialEq, Eq, Structural, Debug)]
pub struct LocalId(pub u32);

/// A continuation shared by several jumps.
#[derive(Clone, Copy, PartialEq, Eq, Structural, Debug)]
pub struct JoinId(pub u32);

/// A constant of the program's table.
#[derive(Clone, Copy, PartialEq, Eq, Structural, Debug)]
pub struct ConstId(pub u32);

/// A function of the program's table.
#[derive(Clone, Copy, PartialEq, Eq, Structural, Debug)]
pub struct FuncIdx(pub u32);

/// A slot that outlives the module toplevel that fills it.
#[derive(Clone, Copy, PartialEq, Eq, Structural, Debug)]
pub struct GlobalSlot(pub u32);

/// A nominal type.
#[derive(Clone, Copy, PartialEq, Eq, Structural, Debug)]
pub struct TypeId(pub i32);

/// One constructor of a nominal type.
#[derive(Clone, Copy, PartialEq, Eq, Structural, Debug)]
pub struct Variant {
    pub type_id: TypeId,
    pub tag: u32,
}

/// A primitive operation.
#[derive(Clone, Copy, PartialEq, Eq, Structural, Debug)]
pub enum PrimOp {
    IntAdd,
    IntSub,
    IntMul,
}

/// What a call calls.
#[derive(Clone, Copy, PartialEq, Eq, Structural, Debug)]
pub enum Callee {
    /// The function the call stands in.
    Self_,
    /// A function known by its number.
    Known(FuncIdx),
}

/// The size of a cell, which decides what may overwrite it.
#[derive(Clone, Copy, PartialEq, Eq, Structural, Debug)]
pub struct ReuseShape {
    pub fields: usize,
}

impl ReuseShape {
    /// The shape of a constructor's cell with `fields` payload words.
    pub fn ctor(fields: usize) -> (shape: ReuseShape)
        ensures
            shape.fields == fields,
    {
        ReuseShape { fields }
    }
}

/// A local being bound, with its type, and the global it is pinned to if it is.
#[derive(Clone, Copy, PartialEq, Eq, Structural, Debug)]
pub struct CoreBind {
    pub id: LocalId,
    pub ty: RTy,
    pub global: Option<GlobalSlot>,
}

impl CoreBind {
    /// A bind pinned to no global.
    pub fn new(id: LocalId, ty: RTy) -> (bind: CoreBind)
        ensures
            bind == (CoreBind { id, ty, global: None }),
    {
        CoreBind { id, ty, global: None }
    }
}

/// A value computed in one step.
#[derive(Debug)]
pub enum Atom {
    /// Shares a local: its slot keeps its reference.
    Local(LocalId),
    /// Takes a local's reference out of its slot.
    Move(LocalId),
    Const(ConstId),
    Nil,
    Prim { op: PrimOp, args: Vec<LocalId> },
    Ctor { variant: Variant, fields: Vec<LocalId>, reuse: Option<LocalId> },
    Call { callee: Callee, args: Vec<LocalId> },
}

/// The view of an [`Atom`].
pub enum AtomView {
    Local(LocalId),
    Move(LocalId),
    Const(ConstId),
    Nil,
    Prim { op: PrimOp, args: Seq<LocalId> },
    Ctor { variant: Variant, fields: Seq<LocalId>, reuse: Option<LocalId> },
    Call { callee: Callee, args: Seq<LocalId> },
}

impl View for Atom {
    type V = AtomView;

    open spec fn view(&self) -> AtomView {
        match *self {
            Atom::Local(x) => AtomView::Local(x),
            Atom::Move(x) => AtomView::Move(x),
            Atom::Const(c) => AtomView::Const(c),
            Atom::Nil => AtomView::Nil,
            Atom::Prim { op, args } => AtomView::Prim { op, args: args@ },
            Atom::Ctor { variant, fields, reuse } => AtomView::Ctor { variant, fields: fields@, reuse },
            Atom::Call { callee, args } => AtomView::Call { callee, args: args@ },
        }
    }
}

impl AtomView {
    /// The locals the atom reads, in the order it names them.
    pub open spec fn operands(self) -> Seq<LocalId> {
        match self {
            AtomView::Local(x) => seq![x],
            AtomView::Move(x) => seq![x],
            AtomView::Const(_) => Seq::empty(),
            AtomView::Nil => Seq::empty(),
            AtomView::Prim { op, args } => args,
            AtomView::Ctor { variant, fields, reuse } => fields,
            AtomView::Call { callee, args } => args,
        }
    }

    /// The locals the atom reads, by number.
    pub open spec fn reads(self) -> Set<u32> {
        Set::new(|n: u32| self.operands().contains(LocalId(n)))
    }

    /// The shape of the cell the atom makes, where it is sure to make one.
    pub open spec fn shape(self) -> Option<ReuseShape> {
        match self {
            AtomView::Ctor { variant, fields, reuse } => Some(ReuseShape { fields: fields.len() as usize }),
            _ => None,
        }
    }
}

impl Atom {
    /// A primitive operation on locals.
    pub fn prim(op: PrimOp, args: Vec<LocalId>) -> (atom: Atom)
        ensures
            atom@ == (AtomView::Prim { op, args: args@ }),
    {
        Atom::Prim { op, args }
    }
}

/// What a `match` arm asks of the scrutinee.
#[derive(Debug)]
pub enum CorePat {
    Wild,
    Lit(ConstId),
    Bind(CoreBind),
    Ctor { variant: Variant, fields: Vec<CoreBind> },
}

/// The view of a [`CorePat`].
pub enum PatView {
    Wild,
    Lit(ConstId),
    Bind(CoreBind),
    Ctor { variant: Variant, fields: Seq<CoreBind> },
}

impl View for CorePat {
    type V = PatView;

    open spec fn view(&self) -> PatView {
        match *self {
            CorePat::Wild => PatView::Wild,
            CorePat::Lit(c) => PatView::Lit(c),
            CorePat::Bind(b) => PatView::Bind(b),
            CorePat::Ctor { variant, fields } => PatView::Ctor { variant, fields: fields@ },
        }
    }
}

impl PatView {
    /// What the pattern binds, in order.
    pub open spec fn binds(self) -> Seq<CoreBind> {
        match self {
            PatView::Wild => Seq::empty(),
            PatView::Lit(_) => Seq::empty(),
            PatView::Bind(b) => seq![b],
            PatView::Ctor { variant, fields } => fields,
        }
    }
}

/// A function body.
#[derive(Debug)]
pub enum CoreExpr {
    Let { bind: CoreBind, rhs: Atom, body: Box<CoreExpr> },
    /// Runs `join`, whose `Tail`s give `bind` its value, then `body`.
    LetJoin { bind: CoreBind, join: Box<CoreExpr>, body: Box<CoreExpr> },
    /// Names `cont` for the `Goto`s in `body`.
    LetCont { id: JoinId, cont: Box<CoreExpr>, body: Box<CoreExpr> },
    /// Releases the reference `local` holds.
    Drop { local: LocalId, shape: Option<ReuseShape>, body: Box<CoreExpr> },
    Tail(Atom),
    Goto(JoinId),
    If { cond: LocalId, yes: Box<CoreExpr>, no: Box<CoreExpr>, ty: RTy },
    Match { scrut: LocalId, arms: Vec<(CorePat, CoreExpr)>, ty: RTy },
}

/// The view of a [`CoreExpr`].
pub enum Term {
    Let { bind: CoreBind, rhs: AtomView, body: Box<Term> },
    LetJoin { bind: CoreBind, join: Box<Term>, body: Box<Term> },
    LetCont { id: JoinId, cont: Box<Term>, body: Box<Term> },
    Drop { local: LocalId, shape: Option<ReuseShape>, body: Box<Term> },
    Tail(AtomView),
    Goto(JoinId),
    If { cond: LocalId, yes: Box<Term>, no: Box<Term>, ty: RTy },
    Match { scrut: LocalId, arms: Seq<(PatView, Term)>, ty: RTy },
}

impl CoreExpr {
    /// The body as a mathematical value.
    pub open spec fn view(&self) -> Term
        decreases self,
    {
        match *self {
            CoreExpr::Let { bind, rhs, body } => Term::Let { bind, rhs: rhs@, body: Box::new((*body).view()) },
            CoreExpr::LetJoin { bind, join, body } => Term::LetJoin {
                bind,
                join: Box::new((*join).view()),
                body: Box::new((*body).view()),
            },
            CoreExpr::LetCont { id, cont, body } => Term::LetCont {
                id,
                cont: Box::new((*cont).view()),
                body: Box::new((*body).view()),
            },
            CoreExpr::Drop { local, shape, body } => Term::Drop { local, shape, body: Box::new((*body).view()) },
            CoreExpr::Tail(a) => Term::Tail(a@),
            CoreExpr::Goto(id) => Term::Goto(id),
            CoreExpr::If { cond, yes, no, ty } => Term::If {
                cond,
                yes: Box::new((*yes).view()),
                no: Box::new((*no).view()),
                ty,
            },
            CoreExpr::Match { scrut, arms, ty } => Term::Match {
                scrut,
                arms: Seq::new(
                    arms@.len(),
                    |i: int|
                        if 0 <= i < arms@.len() {
                            (arms@[i].0@, arms@[i].1.view())
                        } else {
                            arbitrary()
                        },
                ),
                ty,
            },
        }
    }
}

/// A function.
#[derive(Debug)]
pub struct CoreFn {
    pub params: Vec<CoreBind>,
    pub body: CoreExpr,
    pub ret_ty: RTy,
}

} // verus!
