//! The objects that a platform keeps under the ids it is given, and what it says where an id
//! is not used as it should be.
use std::collections::{BTreeMap, BTreeSet};

use vstd::prelude::*;
use vstd::string::StringExecFns;

use crate::text::{decimal, push_decimal};
use crate::vm::fake::{handle_text, push_handle};
use crate::vm::id::{Buffer, Device, Handle, Id};
use crate::vm::platform::Fault;

verus! {

broadcast use {vstd::std_specs::btree::group_btree_axioms, vstd::laws_cmp::group_laws_cmp};

/// Which objects a platform keeps: the devices, and the buffers with their lengths.
pub struct Objects {
    pub devices: BTreeSet<u64>,
    pub buffers: BTreeMap<u64, u64>,
}

/// What is said of two objects under one id.
pub open spec fn made_twice_text(h: Handle) -> Seq<char> {
    "the VM named two objects "@ + handle_text(h)
}

/// What is said of an object that is not kept.
pub open spec fn not_kept_text(h: Handle) -> Seq<char> {
    handle_text(h) + ", which Metal does not hold for the VM"@
}

/// What is said of a read with room for another length.
pub open spec fn wrong_room_text(id: u64, length: nat, room: nat) -> Seq<char> {
    "#"@ + decimal(id as nat) + " holds "@ + decimal(length) + " bytes, and the VM made room for "@ + decimal(room)
}

/// Two objects under one id.
pub fn made_twice(h: Handle) -> (f: Fault)
    ensures
        f.0@ == made_twice_text(h),
{
    let mut s = String::new();
    s.append("the VM named two objects ");
    push_handle(&mut s, h);
    assert(s@ =~= made_twice_text(h));
    Fault::new(s)
}

/// An object that is not kept.
pub fn not_kept(h: Handle) -> (f: Fault)
    ensures
        f.0@ == not_kept_text(h),
{
    let mut s = String::new();
    push_handle(&mut s, h);
    s.append(", which Metal does not hold for the VM");
    assert(s@ =~= not_kept_text(h));
    Fault::new(s)
}

impl Objects {
    /// Nothing is kept.
    pub fn new() -> (o: Objects)
        ensures
            o.devices@ == Set::<u64>::empty(),
            o.buffers@ == Map::<u64, u64>::empty(),
    {
        Objects { devices: BTreeSet::new(), buffers: BTreeMap::new() }
    }

    /// Keeps a device, unless there is one under its id.
    pub fn keep_device(&mut self, id: Id<Device>) -> (r: Result<(), Fault>)
        ensures
            final(self).buffers@ == old(self).buffers@,
            final(self).devices@ == old(self).devices@.insert(id@),
            match r {
                Ok(_) => !old(self).devices@.contains(id@),
                Err(f) => old(self).devices@.contains(id@) && f.0@ == made_twice_text(Handle::Device(id)),
            },
    {
        if self.devices.contains(&id.raw()) {
            assert(self.devices@.insert(id@) =~= self.devices@);
            return Err(made_twice(Handle::Device(id)));
        }
        self.devices.insert(id.raw());
        Ok(())
    }

    /// Keeps a buffer of so many bytes, unless there is one under its id.
    pub fn keep_buffer(&mut self, id: Id<Buffer>, length: u64) -> (r: Result<(), Fault>)
        ensures
            final(self).devices@ == old(self).devices@,
            match r {
                Ok(_) => !old(self).buffers@.contains_key(id@) && final(self).buffers@ == old(self).buffers@.insert(
                    id@,
                    length,
                ),
                Err(f) => old(self).buffers@.contains_key(id@) && final(self).buffers@ == old(self).buffers@ && f.0@
                    == made_twice_text(Handle::Buffer(id)),
            },
    {
        if self.buffers.contains_key(&id.raw()) {
            return Err(made_twice(Handle::Buffer(id)));
        }
        self.buffers.insert(id.raw(), length);
        Ok(())
    }

    /// Whether a device is kept that a buffer is to be made on.
    pub fn find_device(&self, id: Id<Device>) -> (r: Result<(), Fault>)
        ensures
            match r {
                Ok(_) => self.devices@.contains(id@),
                Err(f) => !self.devices@.contains(id@) && f.0@ == not_kept_text(Handle::Device(id)),
            },
    {
        if self.devices.contains(&id.raw()) {
            Ok(())
        } else {
            Err(not_kept(Handle::Device(id)))
        }
    }

    /// Whether a buffer can be read into room for so many bytes: it is kept, and is as long.
    pub fn find_buffer(&self, id: Id<Buffer>, room: u64) -> (r: Result<(), Fault>)
        ensures
            match r {
                Ok(_) => self.buffers@.contains_key(id@) && self.buffers@[id@] == room,
                Err(f) => if self.buffers@.contains_key(id@) {
                    self.buffers@[id@] != room && f.0@ == wrong_room_text(id@, self.buffers@[id@] as nat, room as nat)
                } else {
                    f.0@ == not_kept_text(Handle::Buffer(id))
                },
            },
    {
        match self.buffers.get(&id.raw()) {
            Some(length) => {
                if *length == room {
                    return Ok(());
                }
                let mut s = String::new();
                s.append("#");
                push_decimal(&mut s, id.raw());
                s.append(" holds ");
                push_decimal(&mut s, *length);
                s.append(" bytes, and the VM made room for ");
                push_decimal(&mut s, room);
                assert(s@ =~= wrong_room_text(id@, *length as nat, room as nat));
                Err(Fault::new(s))
            },
            None => Err(not_kept(Handle::Buffer(id))),
        }
    }

    /// Keeps an object no longer.
    pub fn let_go(&mut self, h: Handle)
        ensures
            match h {
                Handle::Device(id) => final(self).devices@ == old(self).devices@.remove(id@) && final(self).buffers@
                    == old(self).buffers@,
                Handle::Buffer(id) => final(self).buffers@ == old(self).buffers@.remove(id@) && final(self).devices@
                    == old(self).devices@,
            },
    {
        match h {
            Handle::Device(id) => {
                self.devices.remove(&id.raw());
            },
            Handle::Buffer(id) => {
                self.buffers.remove(&id.raw());
            },
        }
    }

    /// How many objects are kept.
    pub fn held(&self) -> (n: u128)
        ensures
            n == self.devices@.len() + self.buffers@.dom().len(),
    {
        self.devices.len() as u128 + self.buffers.len() as u128
    }
}

} // verus!
