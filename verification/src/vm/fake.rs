//! A platform made of plain memory, which stands in for a GPU.
//!
//! It watches how it is used. Making an object under an id that it already used, naming one
//! that it does not hold, or releasing one twice is written down.
use std::collections::{BTreeMap, BTreeSet};

use vstd::prelude::*;
use vstd::string::StringExecFns;

use crate::text::{decimal, push_decimal};
use crate::vm::id::{Buffer, Device, Handle, Id};
use crate::vm::platform::{BufferBytes, BufferError, DeviceError, DeviceInfo, Fault, Platform, ReadInto};

verus! {

broadcast use {vstd::std_specs::btree::group_btree_axioms, vstd::laws_cmp::group_laws_cmp};

/// What the fake says to a request that it could meet.
#[derive(Clone, Copy, Debug, PartialEq, Eq, Structural)]
pub enum Answer {
    Meet,
    NoGpuApi,
    NoDevice,
    OutOfMemory,
}

/// A GPU in memory.
pub struct Fake {
    answer: Answer,
    max_buffer_bytes: u64,
    devices: BTreeSet<u64>,
    buffers: BTreeMap<u64, Vec<u8>>,
    released_devices: BTreeSet<u64>,
    released_buffers: BTreeSet<u64>,
    /// What was let go of, in order.
    let_go_of: Ghost<Seq<Handle>>,
    wrong: Vec<String>,
}

/// A handle as text.
pub open spec fn handle_text(h: Handle) -> Seq<char> {
    match h {
        Handle::Device(id) => "Device(#"@ + decimal(id@ as nat) + ")"@,
        Handle::Buffer(id) => "Buffer(#"@ + decimal(id@ as nat) + ")"@,
    }
}

/// A handle as text.
pub fn push_handle(out: &mut String, h: Handle)
    ensures
        final(out)@ == old(out)@ + handle_text(h),
{
    match h {
        Handle::Device(id) => {
            out.append("Device(#");
            push_decimal(out, id.raw());
        },
        Handle::Buffer(id) => {
            out.append("Buffer(#");
            push_decimal(out, id.raw());
        },
    }
    out.append(")");
    assert(out@ =~= old(out)@ + handle_text(h));
}

/// What is written down of a handle.
fn note(h: Handle, what: &str) -> (s: String)
    ensures
        s@ == handle_text(h) + what@,
{
    let mut s = String::new();
    push_handle(&mut s, h);
    s.append(what);
    assert(s@ =~= handle_text(h) + what@);
    s
}

/// What is written down of a buffer on a device that is not held.
pub open spec fn on_no_device(device: u64) -> Seq<char> {
    "a buffer on #"@ + decimal(device as nat) + ", which it does not hold"@
}

/// What is written down of a read that cannot be met.
pub open spec fn bad_read(buffer: u64, n: nat) -> Seq<char> {
    "a read of #"@ + decimal(buffer as nat) + " into "@ + decimal(n) + " bytes"@
}

impl Default for Fake {
    fn default() -> (fake: Fake)
        ensures
            fake.is_new(Answer::Meet, u64::MAX),
    {
        Fake::new()
    }
}

impl Fake {
    /// What it says to a request that it could meet.
    pub closed spec fn says(&self) -> Answer {
        self.answer
    }

    /// The most bytes that a buffer of its device holds.
    pub closed spec fn max(&self) -> u64 {
        self.max_buffer_bytes
    }

    /// The devices it holds.
    pub closed spec fn held_devices(&self) -> Set<u64> {
        self.devices@
    }

    /// The buffers it holds.
    pub closed spec fn held_buffers(&self) -> Map<u64, Seq<u8>> {
        self.buffers@.map_values(|v: Vec<u8>| v@)
    }

    /// The devices that were released.
    pub closed spec fn gone_devices(&self) -> Set<u64> {
        self.released_devices@
    }

    /// The buffers that were released.
    pub closed spec fn gone_buffers(&self) -> Set<u64> {
        self.released_buffers@
    }

    /// What it was told to let go of, in order.
    pub closed spec fn gone(&self) -> Seq<Handle> {
        self.let_go_of@
    }

    /// What it was asked that it should not have been.
    pub closed spec fn misuses(&self) -> Seq<Seq<char>> {
        self.wrong@.map_values(|s: String| s@)
    }

    /// It has not been asked anything yet.
    pub open spec fn is_new(&self, answer: Answer, max: u64) -> bool {
        &&& self.says() == answer
        &&& self.max() == max
        &&& self.held_devices() == Set::<u64>::empty()
        &&& self.held_buffers() == Map::<u64, Seq<u8>>::empty()
        &&& self.gone_devices() == Set::<u64>::empty()
        &&& self.gone_buffers() == Set::<u64>::empty()
        &&& self.gone() == Seq::<Handle>::empty()
        &&& self.misuses() == Seq::<Seq<char>>::empty()
    }

    /// It answers as before, and all else but what is asked of is as before.
    pub open spec fn is_like(&self, other: &Fake) -> bool {
        &&& self.says() == other.says()
        &&& self.max() == other.max()
    }

    /// A fake with one device, whose largest buffer is larger than any binary.
    pub fn new() -> (fake: Fake)
        ensures
            fake.is_new(Answer::Meet, u64::MAX),
    {
        Fake::with(Answer::Meet, u64::MAX)
    }

    fn with(answer: Answer, max_buffer_bytes: u64) -> (fake: Fake)
        ensures
            fake.is_new(answer, max_buffer_bytes),
    {
        let fake = Fake {
            answer,
            max_buffer_bytes,
            devices: BTreeSet::new(),
            buffers: BTreeMap::new(),
            released_devices: BTreeSet::new(),
            released_buffers: BTreeSet::new(),
            let_go_of: Ghost(Seq::empty()),
            wrong: Vec::new(),
        };
        assert(fake.held_buffers() =~= Map::<u64, Seq<u8>>::empty());
        assert(fake.misuses() =~= Seq::<Seq<char>>::empty());
        fake
    }

    /// A fake whose device's largest buffer holds `n` bytes.
    pub fn with_max_buffer_bytes(self, n: u64) -> (fake: Fake)
        ensures
            fake.max() == n,
            fake.says() == self.says(),
            fake.held_devices() == self.held_devices(),
            fake.held_buffers() == self.held_buffers(),
            fake.gone_devices() == self.gone_devices(),
            fake.gone_buffers() == self.gone_buffers(),
            fake.gone() == self.gone(),
            fake.misuses() == self.misuses(),
    {
        let mut fake = self;
        fake.max_buffer_bytes = n;
        fake
    }

    fn answering(self, answer: Answer) -> (fake: Fake)
        ensures
            fake.says() == answer,
            fake.max() == self.max(),
            fake.held_devices() == self.held_devices(),
            fake.held_buffers() == self.held_buffers(),
            fake.gone_devices() == self.gone_devices(),
            fake.gone_buffers() == self.gone_buffers(),
            fake.gone() == self.gone(),
            fake.misuses() == self.misuses(),
    {
        let mut fake = self;
        fake.answer = answer;
        fake
    }

    /// A fake with no way to reach a GPU.
    pub fn without_gpu_api(self) -> (fake: Fake)
        ensures
            fake.says() == Answer::NoGpuApi,
            fake.max() == self.max(),
            fake.held_devices() == self.held_devices(),
            fake.held_buffers() == self.held_buffers(),
            fake.gone_devices() == self.gone_devices(),
            fake.gone_buffers() == self.gone_buffers(),
            fake.gone() == self.gone(),
            fake.misuses() == self.misuses(),
    {
        self.answering(Answer::NoGpuApi)
    }

    /// A fake with a way to reach a GPU and no GPU.
    pub fn without_device(self) -> (fake: Fake)
        ensures
            fake.says() == Answer::NoDevice,
            fake.max() == self.max(),
            fake.held_devices() == self.held_devices(),
            fake.held_buffers() == self.held_buffers(),
            fake.gone_devices() == self.gone_devices(),
            fake.gone_buffers() == self.gone_buffers(),
            fake.gone() == self.gone(),
            fake.misuses() == self.misuses(),
    {
        self.answering(Answer::NoDevice)
    }

    /// A fake whose GPU has no memory for any buffer.
    pub fn out_of_memory(self) -> (fake: Fake)
        ensures
            fake.says() == Answer::OutOfMemory,
            fake.max() == self.max(),
            fake.held_devices() == self.held_devices(),
            fake.held_buffers() == self.held_buffers(),
            fake.gone_devices() == self.gone_devices(),
            fake.gone_buffers() == self.gone_buffers(),
            fake.gone() == self.gone(),
            fake.misuses() == self.misuses(),
    {
        self.answering(Answer::OutOfMemory)
    }

    /// How many objects it holds.
    pub fn held(&self) -> (n: u128)
        ensures
            n == self.held_devices().len() + self.held_buffers().dom().len(),
    {
        assert(self.held_buffers().dom() =~= self.buffers@.dom());
        self.devices.len() as u128 + self.buffers.len() as u128
    }

    /// What it was asked that it should not have been, in order.
    pub fn wrong(&self) -> (list: &Vec<String>)
        ensures
            list@.map_values(|s: String| s@) == self.misuses(),
    {
        &self.wrong
    }

    fn write_down(&mut self, what: String)
        ensures
            final(self).is_like(old(self)),
            final(self).held_devices() == old(self).held_devices(),
            final(self).held_buffers() == old(self).held_buffers(),
            final(self).gone_devices() == old(self).gone_devices(),
            final(self).gone_buffers() == old(self).gone_buffers(),
            final(self).gone() == old(self).gone(),
            final(self).misuses() == old(self).misuses().push(what@),
    {
        self.wrong.push(what);
        assert(self.misuses() =~= old(self).misuses().push(what@));
    }

    /// An object was made under the id.
    pub open spec fn is_taken(&self, h: Handle) -> bool {
        match h {
            Handle::Device(id) => self.held_devices().contains(id@) || self.gone_devices().contains(id@),
            Handle::Buffer(id) => self.held_buffers().contains_key(id@) || self.gone_buffers().contains(id@),
        }
    }

    /// Whether an object was made under the id; if so, that is written down.
    fn taken(&mut self, h: Handle) -> (yes: bool)
        ensures
            yes == old(self).is_taken(h),
            final(self).is_like(old(self)),
            final(self).held_devices() == old(self).held_devices(),
            final(self).held_buffers() == old(self).held_buffers(),
            final(self).gone_devices() == old(self).gone_devices(),
            final(self).gone_buffers() == old(self).gone_buffers(),
            final(self).gone() == old(self).gone(),
            final(self).misuses() == (if yes {
                old(self).misuses().push(handle_text(h) + " made twice"@)
            } else {
                old(self).misuses()
            }),
    {
        let yes = match h {
            Handle::Device(id) => self.devices.contains(&id.raw()) || self.released_devices.contains(&id.raw()),
            Handle::Buffer(id) => self.buffers.contains_key(&id.raw()) || self.released_buffers.contains(&id.raw()),
        };
        if yes {
            self.write_down(note(h, " made twice"));
        }
        yes
    }

    /// Makes a device.
    pub fn make_device(&mut self, device: Id<Device>) -> (r: Result<DeviceInfo, DeviceError>)
        ensures
            final(self).is_like(old(self)),
            final(self).held_buffers() == old(self).held_buffers(),
            final(self).gone_devices() == old(self).gone_devices(),
            final(self).gone_buffers() == old(self).gone_buffers(),
            final(self).gone() == old(self).gone(),
            ({
                let asked = old(self).says() is Meet || old(self).says() is OutOfMemory;
                let taken = old(self).is_taken(Handle::Device(device));
                &&& final(self).held_devices() == (if asked && !taken {
                    old(self).held_devices().insert(device@)
                } else {
                    old(self).held_devices()
                })
                &&& final(self).misuses() == (if asked && taken {
                    old(self).misuses().push(handle_text(Handle::Device(device)) + " made twice"@)
                } else {
                    old(self).misuses()
                })
                &&& match r {
                    Ok(info) => asked && !taken && info.name@ == "Fake GPU"@ && info.max_buffer_bytes == old(self).max(),
                    Err(DeviceError::Unsupported) => old(self).says() is NoGpuApi,
                    Err(DeviceError::NoDevice) => old(self).says() is NoDevice,
                    Err(DeviceError::Fault(f)) => asked && taken && f.0@ == "an id made twice"@,
                }
            }),
    {
        match self.answer {
            Answer::Meet | Answer::OutOfMemory => {},
            Answer::NoGpuApi => {
                return Err(DeviceError::Unsupported);
            },
            Answer::NoDevice => {
                return Err(DeviceError::NoDevice);
            },
        }
        if self.taken(Handle::Device(device)) {
            return Err(DeviceError::Fault(Fault::new("an id made twice".to_owned())));
        }
        self.devices.insert(device.raw());
        Ok(DeviceInfo::new("Fake GPU".to_owned(), self.max_buffer_bytes))
    }

    /// Makes a buffer with a copy of `bytes`.
    pub fn make_buffer(&mut self, buffer: Id<Buffer>, bytes: BufferBytes<'_>) -> (r: Result<(), BufferError>)
        ensures
            final(self).is_like(old(self)),
            final(self).held_devices() == old(self).held_devices(),
            final(self).gone_devices() == old(self).gone_devices(),
            final(self).gone_buffers() == old(self).gone_buffers(),
            final(self).gone() == old(self).gone(),
            ({
                let on = old(self).held_devices().contains(bytes.on()@);
                let room = !(old(self).says() is OutOfMemory);
                let taken = old(self).is_taken(Handle::Buffer(buffer));
                &&& final(self).held_buffers() == (if on && room && !taken {
                    old(self).held_buffers().insert(buffer@, bytes@)
                } else {
                    old(self).held_buffers()
                })
                &&& final(self).misuses() == (if !on {
                    old(self).misuses().push(on_no_device(bytes.on()@))
                } else if room && taken {
                    old(self).misuses().push(handle_text(Handle::Buffer(buffer)) + " made twice"@)
                } else {
                    old(self).misuses()
                })
                &&& match r {
                    Ok(_) => on && room && !taken,
                    Err(BufferError::OutOfMemory) => on && !room,
                    Err(BufferError::Fault(f)) => (!on && f.0@ == on_no_device(bytes.on()@)) || (on && room && taken && f.0@
                        == "an id made twice"@),
                }
            }),
    {
        if !self.devices.contains(&bytes.device().raw()) {
            let mut wrong = String::new();
            wrong.append("a buffer on #");
            push_decimal(&mut wrong, bytes.device().raw());
            wrong.append(", which it does not hold");
            assert(wrong@ =~= on_no_device(bytes.on()@));
            self.write_down(wrong.clone());
            return Err(BufferError::Fault(Fault::new(wrong)));
        }
        match self.answer {
            Answer::OutOfMemory => {
                return Err(BufferError::OutOfMemory);
            },
            _ => {},
        }
        if self.taken(Handle::Buffer(buffer)) {
            return Err(BufferError::Fault(Fault::new("an id made twice".to_owned())));
        }
        let list = vstd::slice::slice_to_vec(bytes.bytes());
        assert(list@ =~= bytes@);
        self.buffers.insert(buffer.raw(), list);
        assert(self.held_buffers() =~= old(self).held_buffers().insert(buffer@, bytes@));
        Ok(())
    }

    /// Copies all the bytes of a buffer out.
    pub fn copy_out(&mut self, to: ReadInto) -> (r: Result<Vec<u8>, Fault>)
        ensures
            final(self).is_like(old(self)),
            final(self).held_devices() == old(self).held_devices(),
            final(self).held_buffers() == old(self).held_buffers(),
            final(self).gone_devices() == old(self).gone_devices(),
            final(self).gone_buffers() == old(self).gone_buffers(),
            final(self).gone() == old(self).gone(),
            match r {
                Ok(out) => {
                    &&& old(self).held_buffers().contains_key(to.of()@)
                    &&& out@ == old(self).held_buffers()[to.of()@]
                    &&& out@.len() == to.room()
                    &&& final(self).misuses() == old(self).misuses()
                },
                Err(f) => {
                    &&& !(old(self).held_buffers().contains_key(to.of()@) && old(self).held_buffers()[to.of()@].len()
                        == to.room())
                    &&& f.0@ == bad_read(to.of()@, to.room())
                    &&& final(self).misuses() == old(self).misuses().push(f.0@)
                },
            },
    {
        let id = to.buffer();
        let mut into = to.into_slice();
        let n = into.len();
        match self.buffers.get(&id.raw()) {
            Some(bytes) => {
                if bytes.len() == n {
                    let out = bytes.clone();
                    assert(out@ =~= bytes@);
                    assert(self.held_buffers()[id@] == bytes@);
                    return Ok(out);
                }
                assert(self.held_buffers()[id@] == bytes@);
            },
            None => {},
        }
        let mut wrong = String::new();
        wrong.append("a read of #");
        push_decimal(&mut wrong, id.raw());
        wrong.append(" into ");
        push_decimal(&mut wrong, n as u64);
        wrong.append(" bytes");
        assert(wrong@ =~= bad_read(id@, n as nat));
        self.write_down(wrong.clone());
        Err(Fault::new(wrong))
    }

    /// Lets go of an object.
    pub fn let_go(&mut self, handle: Handle)
        ensures
            final(self).is_like(old(self)),
            final(self).gone() == old(self).gone().push(handle),
            match handle {
                Handle::Device(id) => {
                    &&& final(self).held_devices() == old(self).held_devices().remove(id@)
                    &&& final(self).held_buffers() == old(self).held_buffers()
                    &&& final(self).gone_devices() == old(self).gone_devices().insert(id@)
                    &&& final(self).gone_buffers() == old(self).gone_buffers()
                    &&& final(self).misuses() == (if old(self).held_devices().contains(id@) {
                        old(self).misuses()
                    } else if old(self).gone_devices().contains(id@) {
                        old(self).misuses().push(handle_text(handle) + " released twice"@)
                    } else {
                        old(self).misuses().push(handle_text(handle) + " released, never made"@)
                    })
                },
                Handle::Buffer(id) => {
                    &&& final(self).held_buffers() == old(self).held_buffers().remove(id@)
                    &&& final(self).held_devices() == old(self).held_devices()
                    &&& final(self).gone_buffers() == old(self).gone_buffers().insert(id@)
                    &&& final(self).gone_devices() == old(self).gone_devices()
                    &&& final(self).misuses() == (if old(self).held_buffers().contains_key(id@) {
                        old(self).misuses()
                    } else if old(self).gone_buffers().contains(id@) {
                        old(self).misuses().push(handle_text(handle) + " released twice"@)
                    } else {
                        old(self).misuses().push(handle_text(handle) + " released, never made"@)
                    })
                },
            },
    {
        proof {
            self.let_go_of@ = self.let_go_of@.push(handle);
        }
        match handle {
            Handle::Device(id) => {
                let n = id.raw();
                if !self.devices.contains(&n) {
                    if self.released_devices.contains(&n) {
                        self.write_down(note(handle, " released twice"));
                    } else {
                        self.write_down(note(handle, " released, never made"));
                    }
                }
                self.devices.remove(&n);
                self.released_devices.insert(n);
            },
            Handle::Buffer(id) => {
                let n = id.raw();
                if !self.buffers.contains_key(&n) {
                    if self.released_buffers.contains(&n) {
                        self.write_down(note(handle, " released twice"));
                    } else {
                        self.write_down(note(handle, " released, never made"));
                    }
                }
                self.buffers.remove(&n);
                assert(self.held_buffers() =~= old(self).held_buffers().remove(id@));
                self.released_buffers.insert(n);
            },
        }
    }
}

impl Platform for Fake {
    open spec fn devices(&self) -> Set<u64> {
        self.held_devices()
    }

    open spec fn buffers(&self) -> Map<u64, Seq<u8>> {
        self.held_buffers()
    }

    open spec fn used(&self) -> Set<u64> {
        self.held_devices().union(self.held_buffers().dom()).union(self.gone_devices()).union(self.gone_buffers())
    }

    open spec fn released(&self) -> Seq<Handle> {
        self.gone()
    }

    fn device(&mut self, device: Id<Device>) -> (r: Result<DeviceInfo, DeviceError>)
        ensures
            final(self).misuses() == old(self).misuses(),
    {
        self.make_device(device)
    }

    fn buffer(&mut self, buffer: Id<Buffer>, bytes: BufferBytes<'_>) -> (r: Result<(), BufferError>)
        ensures
            final(self).misuses() == old(self).misuses(),
    {
        self.make_buffer(buffer, bytes)
    }

    fn read(&mut self, to: ReadInto) -> (r: Result<Vec<u8>, Fault>)
        ensures
            final(self).misuses() == old(self).misuses(),
            r is Ok,
    {
        self.copy_out(to)
    }

    fn release(&mut self, handle: Handle)
        ensures
            final(self).misuses() == old(self).misuses(),
    {
        self.let_go(handle);
        assert(self.used() =~= old(self).used());
    }
}

} // verus!
