//! The objects that a platform holds for a run, by number.
use std::marker::PhantomData;

use vstd::prelude::*;

verus! {

/// A GPU. Only a marker for [`Id`].
#[derive(Clone, Copy, Debug, PartialEq, Eq, Structural)]
pub struct Device;

/// Memory that the CPU and a GPU share. Only a marker for [`Id`].
#[derive(Clone, Copy, Debug, PartialEq, Eq, Structural)]
pub struct Buffer;

/// An object that a platform holds for a run, of kind `T`. The kind is only in the type,
/// so a device's id cannot be passed where a buffer's goes. It is the object's identity
/// for good, never its address.
#[derive(Debug)]
pub struct Id<T> {
    number: u64,
    kind: PhantomData<T>,
}

impl<T> Id<T> {
    /// No object is numbered 0.
    #[verifier::type_invariant]
    spec fn is_numbered(self) -> bool {
        self.number != 0
    }

    /// The number that a program sees.
    pub closed spec fn view(&self) -> u64 {
        self.number
    }

    /// The object numbered `raw`.
    pub fn new(raw: u64) -> (id: Id<T>)
        requires
            raw != 0,
        ensures
            id@ == raw,
    {
        Id { number: raw, kind: PhantomData }
    }

    /// The number that a program sees.
    pub fn raw(self) -> (n: u64)
        ensures
            n == self@,
            n != 0,
    {
        proof {
            use_type_invariant(&self);
        }
        self.number
    }
}

impl<T> Clone for Id<T> {
    fn clone(&self) -> (id: Id<T>)
        ensures
            id == *self,
    {
        *self
    }
}

impl<T> Copy for Id<T> {

}

impl<T> PartialEq for Id<T> {
    fn eq(&self, other: &Id<T>) -> (same: bool) {
        self.number == other.number
    }
}

impl<T> vstd::std_specs::cmp::PartialEqSpecImpl for Id<T> {
    open spec fn obeys_eq_spec() -> bool {
        true
    }

    open spec fn eq_spec(&self, other: &Id<T>) -> bool {
        self@ == other@
    }
}

impl<T> Eq for Id<T> {

}

/// Any object that a platform holds, with its kind.
#[derive(Clone, Copy, Debug, PartialEq, Eq)]
pub enum Handle {
    Device(Id<Device>),
    Buffer(Id<Buffer>),
}

/// Two ids of one kind with one number are the same.
pub proof fn same_number<T>(a: Id<T>, b: Id<T>)
    requires
        a@ == b@,
    ensures
        a == b,
{
}

} // verus!
