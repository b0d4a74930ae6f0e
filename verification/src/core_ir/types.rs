//! Resolved types, as far as the passes on Core IR look into them.
use vstd::prelude::*;

use crate::core_ir::TypeId;

verus! {

/// A type of a [`ResolvedPool`].
#[derive(Clone, Copy, PartialEq, Eq, Structural, Debug)]
pub struct RTy(pub u32);

/// The nominal types whose values are words rather than cells.
#[derive(Clone, Copy, PartialEq, Eq, Structural, Debug)]
pub struct PrimIds {
    pub int: TypeId,
    pub bool_: TypeId,
    pub nil: TypeId,
}

impl Default for PrimIds {
    fn default() -> (ids: PrimIds)
        ensures
            ids == (PrimIds { int: TypeId(0), bool_: TypeId(1), nil: TypeId(2) }),
    {
        PrimIds { int: TypeId(0), bool_: TypeId(1), nil: TypeId(2) }
    }
}

impl PrimIds {
    /// `id` is one of these.
    pub open spec fn holds(self, id: TypeId) -> bool {
        id == self.int || id == self.bool_ || id == self.nil
    }
}

/// What a resolved type is.
#[derive(Clone, Copy, PartialEq, Eq, Structural, Debug)]
pub enum RType {
    /// A nominal type.
    Con(TypeId),
    /// A quantified variable, which any type may stand for.
    Bound(u32),
}

/// The types one compilation has made, by number.
#[derive(Debug)]
pub struct ResolvedPool {
    prims: PrimIds,
    types: Vec<RType>,
}

impl View for ResolvedPool {
    type V = Seq<RType>;

    closed spec fn view(&self) -> Seq<RType> {
        self.types@
    }
}

impl ResolvedPool {
    /// The types that are words.
    pub closed spec fn words(&self) -> PrimIds {
        self.prims
    }

    /// Values of `t` may be heap cells: `t` is a nominal type that is not a
    /// word, or a variable that such a type may stand for.
    pub open spec fn heap(&self, t: RTy) -> bool {
        t.0 < self@.len() && match self@[t.0 as int] {
            RType::Con(id) => !self.words().holds(id),
            RType::Bound(_) => true,
        }
    }

    /// A pool with no types in it.
    pub fn new(prims: PrimIds) -> (pool: ResolvedPool)
        ensures
            pool@ == Seq::<RType>::empty(),
            pool.words() == prims,
    {
        ResolvedPool { prims, types: Vec::new() }
    }

    /// The types that are words.
    pub fn prims(&self) -> (prims: PrimIds)
        ensures
            prims == self.words(),
    {
        self.prims
    }

    /// Adds the nominal type `id`.
    pub fn mk_con(&mut self, id: TypeId) -> (t: RTy)
        requires
            old(self)@.len() <= u32::MAX,
        ensures
            t.0 == old(self)@.len(),
            final(self)@ == old(self)@.push(RType::Con(id)),
            final(self).words() == old(self).words(),
    {
        let t = RTy(self.types.len() as u32);
        self.types.push(RType::Con(id));
        t
    }

    /// Adds the `n`th quantified variable.
    pub fn mk_bound(&mut self, n: u32) -> (t: RTy)
        requires
            old(self)@.len() <= u32::MAX,
        ensures
            t.0 == old(self)@.len(),
            final(self)@ == old(self)@.push(RType::Bound(n)),
            final(self).words() == old(self).words(),
    {
        let t = RTy(self.types.len() as u32);
        self.types.push(RType::Bound(n));
        t
    }

    /// Whether values of `t` may be heap cells.
    pub fn is_heap(&self, t: RTy) -> (heap: bool)
        ensures
            heap == self.heap(t),
    {
        if t.0 as usize >= self.types.len() {
            return false;
        }
        match self.types[t.0 as usize] {
            RType::Con(id) => !(id == self.prims.int || id == self.prims.bool_ || id == self.prims.nil),
            RType::Bound(_) => true,
        }
    }
}

} // verus!
