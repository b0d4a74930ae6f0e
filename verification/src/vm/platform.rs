//! What a program reaches of the machine through the runtime rather than the system: a GPU.
//!
//! The runtime sees it only through [`Platform`]. It names every object before the platform
//! makes it, with an [`Id`] from a counter that never repeats, and the platform keeps the
//! object under that id. What a platform is handed has been checked, and its type says so:
//! [`BufferBytes`] is at least one byte and fits its device, and [`ReadInto`] has room for
//! exactly the buffer it names.
use vstd::prelude::*;
use vstd::string::StringExecFns;

use crate::text::{decimal, push_decimal};
use crate::vm::id::{Buffer, Device, Handle, Id};

verus! {

/// What the runtime keeps of a device that the platform made: its name, and the most bytes
/// that one buffer on it can hold.
#[derive(Debug)]
pub struct DeviceInfo {
    pub name: String,
    pub max_buffer_bytes: u64,
}

impl DeviceInfo {
    pub fn new(name: String, max_buffer_bytes: u64) -> (info: DeviceInfo)
        ensures
            info == (DeviceInfo { name, max_buffer_bytes }),
    {
        DeviceInfo { name, max_buffer_bytes }
    }
}

/// Why bytes are not fit for a buffer on a device: there are none, or more than its
/// largest buffer, which holds so many.
#[derive(Clone, Copy, Debug, PartialEq, Eq, Structural)]
pub enum Unfit {
    Empty,
    TooLarge(u64),
}

/// Whether so many bytes fit a buffer of a device that takes up to `max`.
pub open spec fn fit(len: int, max: u64) -> Result<(), Unfit> {
    if len == 0 {
        Err(Unfit::Empty)
    } else if len > max {
        Err(Unfit::TooLarge(max))
    } else {
        Ok(())
    }
}

/// A number of bytes that fits a buffer on a device.
#[derive(Clone, Copy, Debug)]
pub struct Fits {
    device: Id<Device>,
    len: u64,
}

impl Fits {
    /// The device.
    pub closed spec fn on(&self) -> Id<Device> {
        self.device
    }

    /// The number of bytes.
    pub closed spec fn size(&self) -> u64 {
        self.len
    }

    /// Checks a number of bytes against a device.
    pub fn check(device: Id<Device>, info: &DeviceInfo, len: u64) -> (r: Result<Fits, Unfit>)
        ensures
            match r {
                Ok(f) => fit(len as int, info.max_buffer_bytes) is Ok && f.on() == device && f.size() == len,
                Err(e) => fit(len as int, info.max_buffer_bytes) == Err::<(), Unfit>(e),
            },
    {
        if len == 0 {
            Err(Unfit::Empty)
        } else if len > info.max_buffer_bytes {
            Err(Unfit::TooLarge(info.max_buffer_bytes))
        } else {
            Ok(Fits { device, len })
        }
    }

    /// `bytes` for a buffer, if there are as many as were checked.
    pub fn bytes<'a>(&self, bytes: &'a [u8]) -> (r: Option<BufferBytes<'a>>)
        ensures
            r is Some <==> bytes@.len() == self.size(),
            match r {
                Some(b) => b.on() == self.on() && b@ == bytes@,
                None => true,
            },
    {
        if bytes.len() as u64 == self.len {
            Some(BufferBytes { device: self.device, bytes })
        } else {
            None
        }
    }
}

/// Bytes for a new buffer on a device: at least one, and no more than the device's largest
/// buffer holds. It carries the device that it was checked against, so that a platform
/// cannot make the buffer on another.
#[derive(Clone, Copy, Debug)]
pub struct BufferBytes<'a> {
    device: Id<Device>,
    bytes: &'a [u8],
}

impl<'a> BufferBytes<'a> {
    /// The device that the bytes fit.
    pub closed spec fn on(&self) -> Id<Device> {
        self.device
    }

    /// The bytes.
    pub closed spec fn view(&self) -> Seq<u8> {
        self.bytes@
    }

    /// `bytes`, checked against a device.
    pub fn check(device: Id<Device>, info: &DeviceInfo, bytes: &'a [u8]) -> (r: Result<BufferBytes<'a>, Unfit>)
        ensures
            match r {
                Ok(b) => fit(bytes@.len() as int, info.max_buffer_bytes) is Ok && b.on() == device && b@ == bytes@,
                Err(e) => fit(bytes@.len() as int, info.max_buffer_bytes) == Err::<(), Unfit>(e),
            },
    {
        match Fits::check(device, info, bytes.len() as u64) {
            Ok(f) => Ok(BufferBytes { device, bytes }),
            Err(e) => Err(e),
        }
    }

    /// The device that the bytes fit.
    pub fn device(&self) -> (id: Id<Device>)
        ensures
            id == self.on(),
    {
        self.device
    }

    /// The bytes.
    pub fn bytes(&self) -> (b: &'a [u8])
        ensures
            b@ == self@,
    {
        self.bytes
    }
}

/// A platform that fails where the runtime should have kept it from failing. A run that
/// meets one stops, and says what.
#[derive(Clone, Debug)]
pub struct Fault(pub String);

impl Fault {
    pub fn new(what: String) -> (f: Fault)
        ensures
            f == Fault(what),
    {
        Fault(what)
    }
}

/// Why a platform made no device: the machine has no way to reach a GPU, or has one and no
/// GPU that it can use, or failed.
#[derive(Clone, Debug)]
pub enum DeviceError {
    Unsupported,
    NoDevice,
    Fault(Fault),
}

/// Why a platform made no buffer: there was no memory for it, or it failed.
#[derive(Clone, Debug)]
pub enum BufferError {
    OutOfMemory,
    Fault(Fault),
}

/// Room for all the bytes of a buffer: exactly as many as it holds.
#[derive(Debug)]
pub struct ReadInto {
    buffer: Id<Buffer>,
    into: Vec<u8>,
}

/// How a read of too few or too many bytes is told.
pub open spec fn read_as_text(buffer: u64, n: int, len: int) -> Seq<char> {
    "#"@ + decimal(buffer as nat) + " read as "@ + decimal(n as nat) + " bytes, where it holds "@ + decimal(len as nat)
}

impl ReadInto {
    /// The buffer to read.
    pub closed spec fn of(&self) -> Id<Buffer> {
        self.buffer
    }

    /// The bytes that are there before the read.
    pub closed spec fn given(&self) -> Seq<u8> {
        self.into@
    }

    /// How many bytes it holds.
    pub open spec fn room(&self) -> nat {
        self.given().len()
    }

    /// `into`, for a buffer that holds `len` bytes, or `None` when it is of another length.
    pub fn check(buffer: Id<Buffer>, len: u64, into: Vec<u8>) -> (r: Option<ReadInto>)
        ensures
            r is Some <==> into@.len() == len,
            match r {
                Some(to) => to.of() == buffer && to.given() == into@,
                None => true,
            },
    {
        if into.len() as u64 == len {
            Some(ReadInto { buffer, into })
        } else {
            None
        }
    }

    /// The buffer to read.
    pub fn buffer(&self) -> (id: Id<Buffer>)
        ensures
            id == self.of(),
    {
        self.buffer
    }

    /// Where its bytes go: what it was made with, of as many bytes as the buffer holds.
    pub fn into_slice(self) -> (into: Vec<u8>)
        ensures
            into@ == self.given(),
    {
        self.into
    }

    /// The room filled with `bytes`, which is refused if there are fewer or more than it
    /// holds.
    pub fn copy_from(self, bytes: &[u8]) -> (r: Result<Vec<u8>, Fault>)
        ensures
            match r {
                Ok(out) => bytes@.len() == self.room() && out@ == bytes@,
                Err(f) => bytes@.len() != self.room() && f.0@ == read_as_text(
                    self.of()@,
                    bytes@.len() as int,
                    self.room() as int,
                ),
            },
    {
        let id = self.buffer;
        let mut out = self.into;
        let n = bytes.len();
        if n != out.len() {
            let mut what = String::new();
            what.append("#");
            push_decimal(&mut what, id.raw());
            what.append(" read as ");
            push_decimal(&mut what, n as u64);
            what.append(" bytes, where it holds ");
            push_decimal(&mut what, out.len() as u64);
            assert(what@ =~= read_as_text(self.of()@, n as int, self.room() as int));
            return Err(Fault::new(what));
        }
        let mut k: usize = 0;
        while k < n
            invariant
                k <= n,
                n == bytes@.len(),
                out@.len() == n,
                forall|i: int| 0 <= i < k ==> out@[i] == bytes@[i],
            decreases n - k,
        {
            out.set(k, bytes[k]);
            k += 1;
        }
        assert(out@ =~= bytes@);
        Ok(out)
    }
}

/// A GPU, as the runtime reaches it.
///
/// `devices`, `buffers`, `used` and `released` say what it holds and has done. An impl must give
/// all four: what the methods promise is said in them, and with the bodies here, which hold of a
/// GPU that never makes anything, no device and no buffer could be made. Only an impl in
/// plain Rust, which has no such functions, leaves them out; that it keeps the promises is then
/// for its author to see to.
pub trait Platform: Sized {
    /// The devices that it holds.
    open spec fn devices(&self) -> Set<u64> {
        Set::empty()
    }

    /// The buffers that it holds, each with its bytes.
    open spec fn buffers(&self) -> Map<u64, Seq<u8>> {
        Map::empty()
    }

    /// The ids that it has made objects under.
    open spec fn used(&self) -> Set<u64> {
        Set::empty()
    }

    /// The objects that it has let go of, in the order in which it did.
    open spec fn released(&self) -> Seq<Handle> {
        Seq::empty()
    }

    /// Makes the system's default GPU, as `device`.
    fn device(&mut self, device: Id<Device>) -> (r: Result<DeviceInfo, DeviceError>)
        requires
            !old(self).used().contains(device@),
        ensures
            final(self).buffers() == old(self).buffers(),
            final(self).released() == old(self).released(),
            final(self).used().subset_of(old(self).used().insert(device@)),
            final(self).devices() == (if r is Ok {
                old(self).devices().insert(device@)
            } else {
                old(self).devices()
            }),
    ;

    /// Makes `buffer`, with a copy of `bytes`, on the device that they fit.
    fn buffer(&mut self, buffer: Id<Buffer>, bytes: BufferBytes<'_>) -> (r: Result<(), BufferError>)
        requires
            !old(self).used().contains(buffer@),
            old(self).devices().contains(bytes.on()@),
        ensures
            final(self).devices() == old(self).devices(),
            final(self).released() == old(self).released(),
            final(self).used().subset_of(old(self).used().insert(buffer@)),
            final(self).buffers() == (if r is Ok {
                old(self).buffers().insert(buffer@, bytes@)
            } else {
                old(self).buffers()
            }),
    ;

    /// Copies all the bytes of a buffer out.
    fn read(&mut self, to: ReadInto) -> (r: Result<Vec<u8>, Fault>)
        requires
            old(self).buffers().contains_key(to.of()@),
            old(self).buffers()[to.of()@].len() == to.room(),
        ensures
            final(self).devices() == old(self).devices(),
            final(self).buffers() == old(self).buffers(),
            final(self).used() == old(self).used(),
            final(self).released() == old(self).released(),
            match r {
                Ok(out) => out@ == old(self).buffers()[to.of()@],
                Err(_) => true,
            },
    ;

    /// Lets go of an object. It is called once for each object that was made, when the
    /// last value that names it goes or the run ends.
    fn release(&mut self, handle: Handle)
        requires
            match handle {
                Handle::Device(id) => old(self).devices().contains(id@),
                Handle::Buffer(id) => old(self).buffers().contains_key(id@),
            },
        ensures
            final(self).used() == old(self).used(),
            final(self).released() == old(self).released().push(handle),
            match handle {
                Handle::Device(id) => final(self).devices() == old(self).devices().remove(id@) && final(self).buffers()
                    == old(self).buffers(),
                Handle::Buffer(id) => final(self).buffers() == old(self).buffers().remove(id@) && final(self).devices()
                    == old(self).devices(),
            },
    ;
}

/// Every id has been given out.
#[derive(Clone, Copy, Debug, PartialEq, Eq, Structural)]
pub struct OutOfIds;

/// No object of a platform has an id above `last`.
pub open spec fn is_past<P: Platform>(platform: &P, last: u64) -> bool {
    &&& forall|n: u64| #[trigger] platform.used().contains(n) ==> n <= last
    &&& forall|n: u64| #[trigger] platform.devices().contains(n) ==> n <= last
    &&& forall|n: u64| #[trigger] platform.buffers().contains_key(n) ==> n <= last
}

/// A platform, and the counter of the ids that its objects are made under.
pub struct Gpu<P: Platform> {
    pub platform: P,
    pub last: u64,
}

impl<P: Platform> Gpu<P> {
    /// Every id that the platform has used, or holds an object under, has been given out.
    pub open spec fn ok(&self) -> bool {
        is_past(&self.platform, self.last)
    }

    /// A platform that has made nothing yet.
    pub fn new(platform: P) -> (gpu: Gpu<P>)
        requires
            is_past(&platform, 0),
        ensures
            gpu.ok(),
            gpu == (Gpu { platform, last: 0 }),
    {
        Gpu { platform, last: 0 }
    }

    /// A platform whose ids go on after `last`.
    pub fn after(platform: P, last: u64) -> (gpu: Gpu<P>)
        requires
            is_past(&platform, last),
        ensures
            gpu.ok(),
            gpu == (Gpu { platform, last }),
    {
        Gpu { platform, last }
    }

    /// The next id, which no object has been made under, if there is one.
    pub fn next<T>(&mut self) -> (r: Result<Id<T>, OutOfIds>)
        requires
            old(self).ok(),
        ensures
            final(self).ok(),
            final(self).platform == old(self).platform,
            match r {
                Ok(id) => {
                    &&& old(self).last < u64::MAX
                    &&& id@ == old(self).last + 1
                    &&& final(self).last == id@
                    &&& !final(self).platform.used().contains(id@)
                    &&& !final(self).platform.devices().contains(id@)
                    &&& !final(self).platform.buffers().contains_key(id@)
                },
                Err(_) => old(self).last == u64::MAX && final(self).last == u64::MAX,
            },
    {
        if self.last == u64::MAX {
            return Err(OutOfIds);
        }
        self.last = self.last + 1;
        Ok(Id::new(self.last))
    }
}

/// Ids never repeat: of two that a counter gives, the later is the larger.
pub proof fn ids_never_repeat<P: Platform>(first: Gpu<P>, second: Gpu<P>, a: u64, b: u64)
    requires
        first.last < u64::MAX,
        a == first.last + 1,
        a <= second.last,
        second.last < u64::MAX,
        b == second.last + 1,
    ensures
        a < b,
{
}

} // verus!
