//! The built-ins that reach a GPU, and the handles that a run holds.
//!
//! Every request is checked here, before a platform sees it, so that every platform answers
//! a program the same. A handle's cell that the heap frees is released to the platform at
//! the next call to it, and every handle still held is released when the run ends.
use std::collections::BTreeMap;

use vstd::prelude::*;
use vstd::std_specs::btree::{increasing_seq, spec_keys_iter};
use vstd::std_specs::cmp::OrdSpec;
use vstd::std_specs::iter::IteratorSpec;
use vstd::string::StringExecFns;

use crate::core_ir::Variant;
use crate::text::{decimal, push_decimal, push_number};
use crate::vm::binary::{bits, bits_at, Bits};
use crate::vm::bits::{bits_in, byte_at, byte_from, to_bytes};
use crate::vm::heap::{
    all_ok, fresh_cell_is_ok, names, owner_byte_at, CellView, Cells, Heap, Kind, MAX_CELLS,
    MAX_CELL_WORDS,
};
use crate::vm::joining::counted;
use crate::vm::id::{Buffer, Device, Handle, Id};
use crate::vm::making::{begin, binary_is_new, has_room, is_new_binary, is_string};
use crate::vm::platform::{
    fit, BufferError, DeviceError, DeviceInfo, Fault, Fits, Gpu, OutOfIds, Platform, ReadInto, Unfit,
};
use crate::vm::reading::{byte_view, bytes_in_place, ByteView};
use crate::vm::value::{Cell, Value};

verus! {

broadcast use {vstd::std_specs::btree::group_btree_axioms, vstd::laws_cmp::group_laws_cmp};

/// Why a run stops before its end.
#[derive(Debug)]
pub enum Stop {
    BadProgram(String),
    PlatformFault(String),
    HeapFull,
    OutOfIds,
}

/// What a built-in gives the program: a value, or a value of its error type.
pub type Answer = Result<Value, Value>;

/// What the runtime knows of each object that a platform holds for the run: the devices,
/// and the bytes that each buffer holds, which never change.
#[derive(Debug)]
pub struct Handles {
    pub devices: BTreeMap<u64, DeviceInfo>,
    pub buffers: BTreeMap<u64, u64>,
}

/// The keys of a map, smallest first.
fn keys_in_order<V>(m: &BTreeMap<u64, V>) -> (out: Vec<u64>)
    ensures
        forall|i: int, j: int| 0 <= i < j < out@.len() ==> out@[i] < out@[j],
        forall|n: u64| #[trigger] out@.contains(n) <==> m@.contains_key(n),
{
    let mut out: Vec<u64> = Vec::new();
    let ghost keys: Seq<&u64> = spec_keys_iter(m).remaining();
    for n in iter: m.keys()
        invariant
            iter.seq() == keys,
            out@.len() == iter.index(),
            forall|k: int| 0 <= k < out@.len() ==> out@[k] == *keys[k],
    {
        out.push(*n);
    }
    proof {
        assert(out@.len() == keys.len());
        assert(vstd::laws_cmp::obeys_cmp::<u64>());
        assert(vstd::laws_cmp::obeys_cmp::<&u64>());
        assert(keys.unref().to_set() == m@.dom());
        assert(increasing_seq(keys));
        assert forall|i: int, j: int| 0 <= i < j < out@.len() implies out@[i] < out@[j] by {
            assert(OrdSpec::cmp_spec(&keys[i], &keys[j]) is Less);
        }
        assert forall|n: u64| #[trigger] out@.contains(n) <==> m@.contains_key(n) by {
            if out@.contains(n) {
                let k = out@.index_of(n);
                assert(keys.unref()[k] == n);
                assert(keys.unref().contains(n));
            }
            if m@.contains_key(n) {
                assert(keys.unref().contains(n));
                let k = choose|k: int| 0 <= k < keys.unref().len() && keys.unref()[k] == n;
                assert(out@[k] == n);
            }
        }
    }
    out
}

/// Of two handles that are given up, which goes first: buffers before devices, as each is
/// made on one, and each kind in the order in which they were made.
pub open spec fn goes_before(a: Handle, b: Handle) -> bool {
    match (a, b) {
        (Handle::Buffer(_), Handle::Device(_)) => true,
        (Handle::Device(_), Handle::Buffer(_)) => false,
        (Handle::Buffer(x), Handle::Buffer(y)) => x@ < y@,
        (Handle::Device(x), Handle::Device(y)) => x@ < y@,
    }
}

/// Some handles are a device.
pub open spec fn has_device(list: Seq<Handle>, n: u64) -> bool {
    exists|i: int| 0 <= i < list.len() && #[trigger] list[i] is Device && list[i]->Device_0@ == n
}

/// Some handles are a buffer.
pub open spec fn has_buffer(list: Seq<Handle>, n: u64) -> bool {
    exists|i: int| 0 <= i < list.len() && #[trigger] list[i] is Buffer && list[i]->Buffer_0@ == n
}

/// Some devices and buffers hold a handle.
pub open spec fn holds(devices: Set<u64>, buffers: Set<u64>, h: Handle) -> bool {
    match h {
        Handle::Device(id) => devices.contains(id@),
        Handle::Buffer(id) => buffers.contains(id@),
    }
}

/// The handles of a list that are held, each once, in the order in which they first come.
pub open spec fn held_of(list: Seq<Handle>, devices: Set<u64>, buffers: Set<u64>) -> Seq<Handle>
    decreases list.len(),
{
    if list.len() == 0 {
        Seq::empty()
    } else {
        let before = held_of(list.drop_last(), devices, buffers);
        let h = list.last();
        if holds(devices, buffers, h) && !has_handle(list.drop_last(), h) {
            before.push(h)
        } else {
            before
        }
    }
}

/// Some handles have one among them.
pub open spec fn has_handle(list: Seq<Handle>, h: Handle) -> bool {
    match h {
        Handle::Device(id) => has_device(list, id@),
        Handle::Buffer(id) => has_buffer(list, id@),
    }
}

/// `list` is some devices and buffers, in the order in which they are given up at the end.
pub open spec fn is_all_in_order(list: Seq<Handle>, devices: Set<u64>, buffers: Set<u64>) -> bool {
    &&& forall|i: int, j: int| 0 <= i < j < list.len() ==> goes_before(#[trigger] list[i], #[trigger] list[j])
    &&& forall|n: u64| #[trigger] has_device(list, n) <==> devices.contains(n)
    &&& forall|n: u64| #[trigger] has_buffer(list, n) <==> buffers.contains(n)
}

impl Handles {
    /// No object is numbered 0.
    pub open spec fn ok(&self) -> bool {
        !self.devices@.contains_key(0) && !self.buffers@.contains_key(0)
    }

    /// Nothing is held.
    pub fn new() -> (h: Handles)
        ensures
            h.ok(),
            h.devices@ == Map::<u64, DeviceInfo>::empty(),
            h.buffers@ == Map::<u64, u64>::empty(),
    {
        Handles { devices: BTreeMap::new(), buffers: BTreeMap::new() }
    }

    /// How many objects are held.
    pub fn live(&self) -> (n: u128)
        ensures
            n == self.devices@.dom().len() + self.buffers@.dom().len(),
    {
        self.devices.len() as u128 + self.buffers.len() as u128
    }

    /// Stops holding a handle: `true` when the run held it.
    pub fn forget(&mut self, handle: Handle) -> (held: bool)
        ensures
            old(self).ok() ==> final(self).ok(),
            match handle {
                Handle::Device(id) => {
                    &&& held == old(self).devices@.contains_key(id@)
                    &&& final(self).devices@ == old(self).devices@.remove(id@)
                    &&& final(self).buffers@ == old(self).buffers@
                },
                Handle::Buffer(id) => {
                    &&& held == old(self).buffers@.contains_key(id@)
                    &&& final(self).buffers@ == old(self).buffers@.remove(id@)
                    &&& final(self).devices@ == old(self).devices@
                },
            },
    {
        match handle {
            Handle::Device(id) => self.devices.remove(&id.raw()).is_some(),
            Handle::Buffer(id) => self.buffers.remove(&id.raw()).is_some(),
        }
    }

    /// Every handle still held, forgotten: buffers first, then devices, each in the order
    /// in which they were made.
    pub fn forget_all(&mut self) -> (out: Vec<Handle>)
        requires
            old(self).ok(),
        ensures
            final(self).ok(),
            final(self).devices@ == Map::<u64, DeviceInfo>::empty(),
            final(self).buffers@ == Map::<u64, u64>::empty(),
            is_all_in_order(out@, old(self).devices@.dom(), old(self).buffers@.dom()),
    {
        let bufs = keys_in_order(&self.buffers);
        let devs = keys_in_order(&self.devices);
        let mut out: Vec<Handle> = Vec::new();
        let mut i: usize = 0;
        while i < bufs.len()
            invariant
                i <= bufs@.len(),
                self.ok(),
                forall|n: u64| #[trigger] bufs@.contains(n) <==> self.buffers@.contains_key(n),
                out@.len() == i,
                forall|k: int| 0 <= k < i ==> (#[trigger] out@[k]) is Buffer && out@[k]->Buffer_0@ == bufs@[k],
            decreases bufs@.len() - i,
        {
            assert(bufs@.contains(bufs@[i as int]));
            out.push(Handle::Buffer(Id::new(bufs[i])));
            i += 1;
        }
        let nb = bufs.len();
        let mut j: usize = 0;
        while j < devs.len()
            invariant
                j <= devs@.len(),
                self.ok(),
                nb == bufs@.len(),
                forall|n: u64| #[trigger] devs@.contains(n) <==> self.devices@.contains_key(n),
                out@.len() == nb + j,
                forall|k: int| 0 <= k < nb ==> (#[trigger] out@[k]) is Buffer && out@[k]->Buffer_0@ == bufs@[k],
                forall|k: int| nb <= k < nb + j ==> (#[trigger] out@[k]) is Device && out@[k]->Device_0@ == devs@[k - nb],
            decreases devs@.len() - j,
        {
            assert(devs@.contains(devs@[j as int]));
            out.push(Handle::Device(Id::new(devs[j])));
            j += 1;
        }
        proof {
            assert forall|n: u64| #[trigger] has_device(out@, n) <==> self.devices@.contains_key(n) by {
                if has_device(out@, n) {
                    let k = choose|k: int| 0 <= k < out@.len() && #[trigger] out@[k] is Device && out@[k]->Device_0@ == n;
                    assert(devs@[k - nb] == n);
                    assert(devs@.contains(n));
                }
                if self.devices@.contains_key(n) {
                    assert(devs@.contains(n));
                    let k = devs@.index_of(n);
                    assert(out@[nb + k] is Device);
                }
            }
            assert forall|n: u64| #[trigger] has_buffer(out@, n) <==> self.buffers@.contains_key(n) by {
                if has_buffer(out@, n) {
                    let k = choose|k: int| 0 <= k < out@.len() && #[trigger] out@[k] is Buffer && out@[k]->Buffer_0@ == n;
                    assert(bufs@[k] == n);
                    assert(bufs@.contains(n));
                }
                if self.buffers@.contains_key(n) {
                    assert(bufs@.contains(n));
                    let k = bufs@.index_of(n);
                    assert(out@[k] is Buffer);
                }
            }
        }
        self.devices.clear();
        self.buffers.clear();
        out
    }
}

/// An error that a request for a GPU can have.
#[derive(Clone, Copy, Debug, PartialEq, Eq, Structural)]
pub enum MetalError {
    Unsupported,
    NoDevice,
    EmptyBuffer,
    UnalignedBinary,
    TooLarge { max_bytes: u64 },
    OutOfMemory,
}

/// The constructors of the error type, as the program has them.
#[derive(Clone, Copy, Debug)]
pub struct MetalTypes {
    pub unsupported: Variant,
    pub no_device: Variant,
    pub empty_buffer: Variant,
    pub unaligned_binary: Variant,
    pub too_large: Variant,
    pub out_of_memory: Variant,
}

/// The stop says this of the program.
pub open spec fn blames(stop: Stop, text: Seq<char>) -> bool {
    match stop {
        Stop::BadProgram(s) => s@ == text,
        _ => false,
    }
}

/// The words of a value with one field: its constructor, then the field.
pub open spec fn with_field(v: Variant, field: u64) -> Seq<u64> {
    seq![#[verifier::truncate] (v.type_id.0 as u32 as u64), v.tag as u64, field]
}

/// How an error is answered: with the constructor that the program has for it.
pub open spec fn error_answer(
    types: Option<MetalTypes>,
    e: MetalError,
    before: Cells,
    after: Cells,
    r: Result<Answer, Stop>,
) -> bool {
    match types {
        None => after == before && r is Err && blames(
            r->Err_0,
            "a Metal built-in, in a program with no `scarlet/metal.MetalError`"@,
        ),
        Some(t) => match e {
            MetalError::TooLarge { max_bytes } => if before.dom().len() < MAX_CELLS {
                match r {
                    Ok(Err(Value::Held(c))) => !before.contains_key(c.0) && after == before.insert(
                        c.0,
                        CellView { kind: Kind::Ctor, data: with_field(t.too_large, max_bytes), refs: 1 },
                    ),
                    _ => false,
                }
            } else {
                after == before && r == Err::<Answer, Stop>(Stop::HeapFull)
            },
            MetalError::Unsupported => after == before && r == Ok::<Answer, Stop>(Err(Value::Nullary(t.unsupported))),
            MetalError::NoDevice => after == before && r == Ok::<Answer, Stop>(Err(Value::Nullary(t.no_device))),
            MetalError::EmptyBuffer => after == before && r == Ok::<Answer, Stop>(Err(Value::Nullary(t.empty_buffer))),
            MetalError::UnalignedBinary => after == before && r == Ok::<Answer, Stop>(
                Err(Value::Nullary(t.unaligned_binary)),
            ),
            MetalError::OutOfMemory => after == before && r == Ok::<Answer, Stop>(Err(Value::Nullary(t.out_of_memory))),
        },
    }
}

/// A value as text.
pub open spec fn value_text(v: Value) -> Seq<char> {
    match v {
        Value::Nil => "Nil"@,
        Value::Int(n) => decimal(n as nat),
        Value::Nullary(x) => "constructor "@ + decimal(x.tag as nat),
        Value::Held(c) => "cell #"@ + decimal(c.0 as nat),
    }
}

fn push_value(out: &mut String, v: Value)
    ensures
        final(out)@ == old(out)@ + value_text(v),
{
    match v {
        Value::Nil => {
            out.append("Nil");
        },
        Value::Int(n) => {
            push_number(out, n);
        },
        Value::Nullary(x) => {
            out.append("constructor ");
            push_decimal(out, x.tag as u64);
        },
        Value::Held(c) => {
            out.append("cell #");
            push_decimal(out, c.0 as u64);
        },
    }
    assert(out@ =~= old(out)@ + value_text(v));
}

/// How a value is told that is not what belongs in its place.
pub open spec fn wrong_kind_text(v: Value, want: Seq<char>) -> Seq<char> {
    value_text(v) + " where a "@ + want + " belongs"@
}

/// How a handle is told that the run does not hold.
pub open spec fn not_held_text(v: Value) -> Seq<char> {
    value_text(v) + ", a handle this run no longer holds"@
}

/// A value that is not what belongs in its place.
pub fn wrong_kind(v: Value, want: &str) -> (s: Stop)
    ensures
        blames(s, wrong_kind_text(v, want@)),
{
    let mut t = String::new();
    push_value(&mut t, v);
    t.append(" where a ");
    t.append(want);
    t.append(" belongs");
    assert(t@ =~= wrong_kind_text(v, want@));
    Stop::BadProgram(t)
}

/// A handle that the run does not hold.
pub fn not_held(v: Value) -> (s: Stop)
    ensures
        blames(s, not_held_text(v)),
{
    let mut t = String::new();
    push_value(&mut t, v);
    t.append(", a handle this run no longer holds");
    assert(t@ =~= not_held_text(v));
    Stop::BadProgram(t)
}

/// A platform's fault stops the run, and says what.
pub fn fault(f: Fault) -> (s: Stop)
    ensures
        s == Stop::PlatformFault(f.0),
{
    Stop::PlatformFault(f.0)
}

/// The handle that a value is: whether it is a buffer, and its number.
pub open spec fn handle_at(m: Cells, v: Value) -> Option<(bool, u64)> {
    match v {
        Value::Held(c) => if m.contains_key(c.0) && m[c.0].kind is Handle {
            Some((m[c.0].data[0] != 0, m[c.0].data[1]))
        } else {
            None
        },
        _ => None,
    }
}

/// The device that a value names, if the run holds it.
pub open spec fn device_at(m: Cells, devices: Map<u64, DeviceInfo>, v: Value) -> Option<u64> {
    match handle_at(m, v) {
        Some((false, n)) => if devices.contains_key(n) {
            Some(n)
        } else {
            None
        },
        _ => None,
    }
}

/// The buffer that a value names, if the run holds it.
pub open spec fn buffer_at(m: Cells, buffers: Map<u64, u64>, v: Value) -> Option<u64> {
    match handle_at(m, v) {
        Some((true, n)) => if buffers.contains_key(n) {
            Some(n)
        } else {
            None
        },
        _ => None,
    }
}

/// How a value is told that names no device that the run holds.
pub open spec fn no_device_text(m: Cells, v: Value) -> Seq<char> {
    match handle_at(m, v) {
        Some((false, n)) => not_held_text(v),
        _ => wrong_kind_text(v, "metal.Device"@),
    }
}

/// How a value is told that names no buffer that the run holds.
pub open spec fn no_buffer_text(m: Cells, v: Value) -> Seq<char> {
    match handle_at(m, v) {
        Some((true, n)) => not_held_text(v),
        _ => wrong_kind_text(v, "metal.Buffer"@),
    }
}

fn named(heap: &Heap, v: Value) -> (h: Option<Handle>)
    requires
        heap.sound(),
        all_ok(heap@),
    ensures
        match h {
            Some(Handle::Device(id)) => handle_at(heap@, v) == Some((false, id@)),
            Some(Handle::Buffer(id)) => handle_at(heap@, v) == Some((true, id@)),
            None => handle_at(heap@, v) is None,
        },
{
    match v.as_cell() {
        Some(c) => heap.handle_of(c),
        None => None,
    }
}

/// The device that a value names, which must be one that the run holds.
fn device_of<'a>(heap: &Heap, handles: &'a Handles, v: Value) -> (r: Result<(Id<Device>, &'a DeviceInfo), Stop>)
    requires
        heap.sound(),
        all_ok(heap@),
    ensures
        match r {
            Ok((id, info)) => device_at(heap@, handles.devices@, v) == Some(id@) && *info == handles.devices@[id@],
            Err(s) => device_at(heap@, handles.devices@, v) is None && blames(s, no_device_text(heap@, v)),
        },
{
    match named(heap, v) {
        Some(Handle::Device(id)) => match handles.devices.get(&id.raw()) {
            Some(info) => Ok((id, info)),
            None => Err(not_held(v)),
        },
        _ => Err(wrong_kind(v, "metal.Device")),
    }
}

/// The buffer that a value names, which must be one that the run holds, and the bytes it
/// holds.
fn buffer_of(heap: &Heap, handles: &Handles, v: Value) -> (r: Result<(Id<Buffer>, u64), Stop>)
    requires
        heap.sound(),
        all_ok(heap@),
    ensures
        match r {
            Ok((id, len)) => buffer_at(heap@, handles.buffers@, v) == Some(id@) && len == handles.buffers@[id@],
            Err(s) => buffer_at(heap@, handles.buffers@, v) is None && blames(s, no_buffer_text(heap@, v)),
        },
{
    match named(heap, v) {
        Some(Handle::Buffer(id)) => match handles.buffers.get(&id.raw()) {
            Some(len) => Ok((id, *len)),
            None => Err(not_held(v)),
        },
        _ => Err(wrong_kind(v, "metal.Buffer")),
    }
}

/// What the run holds is what the platform does.
pub open spec fn agrees<P: Platform>(devices: Map<u64, DeviceInfo>, buffers: Map<u64, u64>, platform: &P) -> bool {
    &&& forall|n: u64| #[trigger] platform.devices().contains(n) <==> devices.contains_key(n)
    &&& forall|n: u64| #[trigger] platform.buffers().contains_key(n) <==> buffers.contains_key(n)
    &&& forall|n: u64| #[trigger] buffers.contains_key(n) ==> platform.buffers()[n].len() == buffers[n]
}

/// The buffers that `b` holds are among those of `a`, with the same bytes.
pub open spec fn keeps_bytes<P: Platform>(a: &P, b: &P) -> bool {
    forall|n: u64| #[trigger]
        b.buffers().contains_key(n) ==> a.buffers().contains_key(n) && b.buffers()[n] == a.buffers()[n]
}

/// A run: its heap, the handles it holds, its platform if it has one, the bytes that were
/// copied on their way to it, and the program's error type.
pub struct Machine<P: Platform> {
    pub heap: Heap,
    pub handles: Handles,
    pub gpu: Option<Gpu<P>>,
    pub staged: u64,
    pub types: Option<MetalTypes>,
}

impl<P: Platform> Machine<P> {
    /// The cells are well, and the run holds exactly what the platform does.
    pub open spec fn ok(&self) -> bool {
        &&& self.heap.sound()
        &&& all_ok(self.heap@)
        &&& self.handles.ok()
        &&& match self.gpu {
            Some(g) => g.ok() && agrees(self.handles.devices@, self.handles.buffers@, &g.platform),
            None => self.handles.devices@ == Map::<u64, DeviceInfo>::empty() && self.handles.buffers@ == Map::<
                u64,
                u64,
            >::empty(),
        }
    }

    /// The bytes of a buffer that the platform holds for the run.
    pub open spec fn held_bytes(&self, n: u64) -> Seq<u8> {
        self.gpu->0.platform.buffers()[n]
    }

    /// The devices held once the handles freed so far are released.
    pub open spec fn left_devices(&self) -> Map<u64, DeviceInfo> {
        let freed = self.heap.freed();
        self.handles.devices@.remove_keys(self.handles.devices@.dom().filter(|n: u64| has_device(freed, n)))
    }

    /// The buffers held once the handles freed so far are released.
    pub open spec fn left_buffers(&self) -> Map<u64, u64> {
        let freed = self.heap.freed();
        self.handles.buffers@.remove_keys(self.handles.buffers@.dom().filter(|n: u64| has_buffer(freed, n)))
    }

    /// The handles freed so far that the run holds, in the order in which the platform is told
    /// of them.
    pub open spec fn freed_and_held(&self) -> Seq<Handle> {
        held_of(self.heap.freed(), self.handles.devices@.dom(), self.handles.buffers@.dom())
    }

    /// All but the cells of the heap, and what the platform is, is as it was.
    pub open spec fn is_like(&self, before: &Machine<P>) -> bool {
        &&& self.handles.devices@ == before.handles.devices@
        &&& self.handles.buffers@ == before.handles.buffers@
        &&& self.gpu == before.gpu
        &&& self.staged == before.staged
        &&& self.types == before.types
        &&& self.heap.freed() == before.heap.freed()
    }

    /// The handles freed before are released, and all else but the cells of the heap and
    /// the handles is as it was.
    pub open spec fn is_after_release(&self, before: &Machine<P>) -> bool {
        &&& self.heap.freed() == Seq::<Handle>::empty()
        &&& self.types == before.types
        &&& self.gpu is Some <==> before.gpu is Some
    }

    /// A run that has not begun.
    pub fn new(gpu: Option<Gpu<P>>, types: Option<MetalTypes>) -> (m: Machine<P>)
        requires
            match gpu {
                Some(g) => g.ok() && agrees(Map::<u64, DeviceInfo>::empty(), Map::<u64, u64>::empty(), &g.platform),
                None => true,
            },
        ensures
            m.ok(),
            m.heap@ == Map::<u32, CellView>::empty(),
            m.heap.freed() == Seq::<Handle>::empty(),
            m.handles.devices@ == Map::<u64, DeviceInfo>::empty(),
            m.handles.buffers@ == Map::<u64, u64>::empty(),
            m.gpu == gpu,
            m.staged == 0,
            m.types == types,
    {
        Machine { heap: Heap::new(), handles: Handles::new(), gpu, staged: 0, types }
    }

    /// Tells the platform of a handle that the run no longer needs.
    fn let_go(&mut self, handle: Handle)
        requires
            old(self).ok(),
        ensures
            final(self).ok(),
            final(self).heap == old(self).heap,
            final(self).staged == old(self).staged,
            final(self).types == old(self).types,
            match handle {
                Handle::Device(id) => final(self).handles.devices@ == old(self).handles.devices@.remove(id@) && final(self).handles.buffers@ == old(self).handles.buffers@,
                Handle::Buffer(id) => final(self).handles.buffers@ == old(self).handles.buffers@.remove(id@) && final(self).handles.devices@ == old(self).handles.devices@,
            },
            match (old(self).gpu, final(self).gpu) {
                (None, None) => true,
                (Some(a), Some(b)) => {
                    &&& b.last == a.last
                    &&& keeps_bytes(&a.platform, &b.platform)
                    &&& b.platform.released() == (if holds(
                        old(self).handles.devices@.dom(),
                        old(self).handles.buffers@.dom(),
                        handle,
                    ) {
                        a.platform.released().push(handle)
                    } else {
                        a.platform.released()
                    })
                },
                _ => false,
            },
    {
        if self.handles.forget(handle) {
            match &mut self.gpu {
                Some(gpu) => {
                    gpu.platform.release(handle);
                },
                None => {},
            }
        } else {
            assert(self.handles.devices@ =~= old(self).handles.devices@);
            assert(self.handles.buffers@ =~= old(self).handles.buffers@);
        }
    }

    /// Tells the platform of every handle's cell that was freed since this was last called.
    pub fn release_freed(&mut self)
        requires
            old(self).ok(),
        ensures
            final(self).ok(),
            final(self).is_after_release(old(self)),
            final(self).heap@ == old(self).heap@,
            final(self).staged == old(self).staged,
            final(self).handles.devices@ == old(self).left_devices(),
            final(self).handles.buffers@ == old(self).left_buffers(),
            match (old(self).gpu, final(self).gpu) {
                (Some(a), Some(b)) => {
                    &&& b.last == a.last
                    &&& keeps_bytes(&a.platform, &b.platform)
                    &&& b.platform.released() == a.platform.released() + old(self).freed_and_held()
                },
                _ => true,
            },
    {
        let ghost m0 = self.heap@;
        let list = self.heap.freed_handles();
        let ghost devs = self.handles.devices@;
        let ghost bufs = self.handles.buffers@;
        let ghost heap1 = self.heap;
        let mut i: usize = 0;
        proof {
            assert(devs =~= devs.remove_keys(devs.dom().filter(|n: u64| has_device(list@.take(0), n))));
            assert(bufs =~= bufs.remove_keys(bufs.dom().filter(|n: u64| has_buffer(list@.take(0), n))));
        }
        assert(self.gpu is Some ==> self.gpu->0.platform.released() =~= old(self).gpu->0.platform.released() + held_of(
            list@.take(0),
            devs.dom(),
            bufs.dom(),
        ));
        while i < list.len()
            invariant
                i <= list@.len(),
                self.ok(),
                self.heap == heap1,
                self.staged == old(self).staged,
                self.types == old(self).types,
                self.handles.devices@ == devs.remove_keys(devs.dom().filter(|n: u64| has_device(list@.take(i as int), n))),
                self.handles.buffers@ == bufs.remove_keys(bufs.dom().filter(|n: u64| has_buffer(list@.take(i as int), n))),
                match (old(self).gpu, self.gpu) {
                    (None, None) => true,
                    (Some(a), Some(b)) => {
                        &&& b.last == a.last
                        &&& keeps_bytes(&a.platform, &b.platform)
                        &&& b.platform.released() == a.platform.released() + held_of(
                            list@.take(i as int),
                            devs.dom(),
                            bufs.dom(),
                        )
                    },
                    _ => false,
                },
            decreases list@.len() - i,
        {
            let ghost before = *self;
            self.let_go(list[i]);
            proof {
                assert(list@.take(i + 1).drop_last() =~= list@.take(i as int));
                assert(self.gpu is Some ==> self.gpu->0.platform.released() =~= old(self).gpu->0.platform.released()
                    + held_of(list@.take(i + 1), devs.dom(), bufs.dom()));
                let (s, t) = (list@.take(i as int), list@.take(i + 1));
                let h = list@[i as int];
                assert forall|n: u64| #[trigger] has_device(t, n) <==> has_device(s, n) || (h is Device && h->Device_0@ == n) by {
                    one_more_handle(list@, i as int, n);
                }
                assert forall|n: u64| #[trigger] has_buffer(t, n) <==> has_buffer(s, n) || (h is Buffer && h->Buffer_0@ == n) by {
                    one_more_handle(list@, i as int, n);
                }
                assert(self.handles.devices@ =~= devs.remove_keys(devs.dom().filter(|n: u64| has_device(t, n))));
                assert(self.handles.buffers@ =~= bufs.remove_keys(bufs.dom().filter(|n: u64| has_buffer(t, n))));
            }
            i += 1;
        }
        assert(list@.take(i as int) =~= list@);
    }
}

/// What becomes of a new handle, which the run already holds: it is in a new cell, if there
/// is room for one.
pub open spec fn handle_answer(h: Handle, before: Cells, after: Cells, r: Result<Answer, Stop>) -> bool {
    if before.dom().len() < MAX_CELLS {
        match r {
            Ok(Ok(Value::Held(c))) => {
                &&& !before.contains_key(c.0)
                &&& after.contains_key(c.0)
                &&& after == before.insert(c.0, after[c.0])
                &&& after[c.0].kind is Handle
                &&& after[c.0].refs == 1
                &&& names(after[c.0].data, h)
            },
            _ => false,
        }
    } else {
        after == before && r == Err::<Answer, Stop>(Stop::HeapFull)
    }
}

impl<P: Platform> Machine<P> {
    /// An error, as the program has it.
    pub fn metal_err(&mut self, e: MetalError) -> (r: Result<Answer, Stop>)
        requires
            old(self).ok(),
        ensures
            final(self).ok(),
            final(self).is_like(old(self)),
            error_answer(old(self).types, e, old(self).heap@, final(self).heap@, r),
    {
        let types = match self.types {
            Some(t) => t,
            None => {
                return Err(
                    Stop::BadProgram(
                        "a Metal built-in, in a program with no `scarlet/metal.MetalError`".to_owned(),
                    ),
                );
            },
        };
        let error = match e {
            MetalError::Unsupported => Value::Nullary(types.unsupported),
            MetalError::NoDevice => Value::Nullary(types.no_device),
            MetalError::EmptyBuffer => Value::Nullary(types.empty_buffer),
            MetalError::UnalignedBinary => Value::Nullary(types.unaligned_binary),
            MetalError::OutOfMemory => Value::Nullary(types.out_of_memory),
            MetalError::TooLarge { max_bytes } => {
                let ghost before = self.heap@;
                let words: Vec<u64> = vec![types.too_large.type_id.0 as u32 as u64, types.too_large.tag as u64, max_bytes];
                assert(words@ =~= with_field(types.too_large, max_bytes));
                match self.heap.make(Kind::Ctor, words) {
                    Ok(c) => {
                        proof {
                            fresh_cell_is_ok(before, c.0, self.heap@[c.0]);
                        }
                        Value::Held(c)
                    },
                    Err(_) => {
                        return Err(Stop::HeapFull);
                    },
                }
            },
        };
        Ok(Err(error))
    }

    /// A new cell for a handle that the run already holds, so that it is released even when
    /// there is no room for the cell.
    fn new_handle(&mut self, handle: Handle) -> (r: Result<Answer, Stop>)
        requires
            old(self).ok(),
        ensures
            final(self).ok(),
            final(self).is_like(old(self)),
            handle_answer(handle, old(self).heap@, final(self).heap@, r),
    {
        match self.heap.handle(handle) {
            Ok(c) => Ok(Ok(Value::Held(c))),
            Err(_) => Err(Stop::HeapFull),
        }
    }

    /// How many handles the run holds.
    pub fn live_handles(&mut self) -> (v: Value)
        requires
            old(self).ok(),
        ensures
            final(self).ok(),
            final(self).heap@ == old(self).heap@,
            is_released_run(*old(self), *final(self)),
            v matches Value::Int(n) && n == old(self).left_devices().dom().len() + old(self).left_buffers().dom().len(),
    {
        self.release_freed();
        Value::Int(self.handles.live())
    }

    /// What a platform's answer to a request for a device is to the program.
    pub fn device_answered(&mut self, id: Id<Device>, answer: Result<DeviceInfo, DeviceError>) -> (r: Result<Answer, Stop>)
        requires
            old(self).heap.sound(),
            all_ok(old(self).heap@),
            old(self).handles.ok(),
            id@ != 0,
            match old(self).gpu {
                Some(g) => g.ok() && agrees(
                    match answer {
                        Ok(info) => old(self).handles.devices@.insert(id@, info),
                        Err(_) => old(self).handles.devices@,
                    },
                    old(self).handles.buffers@,
                    &g.platform,
                ),
                None => false,
            },
        ensures
            final(self).ok(),
            final(self).gpu == old(self).gpu,
            final(self).staged == old(self).staged,
            final(self).types == old(self).types,
            final(self).heap.freed() == old(self).heap.freed(),
            final(self).handles.buffers@ == old(self).handles.buffers@,
            final(self).handles.devices@ == (match answer {
                Ok(info) => old(self).handles.devices@.insert(id@, info),
                Err(_) => old(self).handles.devices@,
            }),
            match answer {
                Ok(_) => handle_answer(Handle::Device(id), old(self).heap@, final(self).heap@, r),
                Err(DeviceError::Unsupported) => error_answer(
                    old(self).types,
                    MetalError::Unsupported,
                    old(self).heap@,
                    final(self).heap@,
                    r,
                ),
                Err(DeviceError::NoDevice) => error_answer(
                    old(self).types,
                    MetalError::NoDevice,
                    old(self).heap@,
                    final(self).heap@,
                    r,
                ),
                Err(DeviceError::Fault(f)) => final(self).heap@ == old(self).heap@ && r == Err::<Answer, Stop>(
                    Stop::PlatformFault(f.0),
                ),
            },
    {
        match answer {
            Ok(info) => {
                self.handles.devices.insert(id.raw(), info);
                self.new_handle(Handle::Device(id))
            },
            Err(DeviceError::Unsupported) => self.metal_err(MetalError::Unsupported),
            Err(DeviceError::NoDevice) => self.metal_err(MetalError::NoDevice),
            Err(DeviceError::Fault(f)) => Err(fault(f)),
        }
    }

    /// The system's default GPU. What the platform answers is up to it:
    /// [`Machine::device_answered`] says what each answer is to the program.
    pub fn metal_device(&mut self) -> (r: Result<Answer, Stop>)
        requires
            old(self).ok(),
        ensures
            final(self).ok(),
            device_request(*old(self), *final(self), r),
    {
        self.release_freed();
        if self.gpu.is_none() {
            return self.metal_err(MetalError::Unsupported);
        }
        let ghost mid = *self;
        let id: Id<Device>;
        let answer: Result<DeviceInfo, DeviceError>;
        match &mut self.gpu {
            Some(gpu) => {
                id = match gpu.next() {
                    Ok(id) => id,
                    Err(_) => {
                        return Err(Stop::OutOfIds);
                    },
                };
                answer = gpu.platform.device(id);
            },
            None => {
                return Err(Stop::OutOfIds);
            },
        }
        assert(id@ != 0);
        assert(carries(*old(self), *self)) by {
            assert forall|k: u64| #[trigger] old(self).left_buffers().contains_key(k) implies self.held_bytes(k) == old(
                self,
            ).held_bytes(k) by {
                assert(mid.gpu->0.platform.buffers().contains_key(k));
            }
        }
        self.device_answered(id, answer)
    }

    /// The name of a device.
    pub fn metal_name(&mut self, device: Value) -> (r: Result<Value, Stop>)
        requires
            old(self).ok(),
        ensures
            final(self).ok(),
            final(self).is_like(old(self)),
            match device_at(old(self).heap@, old(self).handles.devices@, device) {
                None => final(self).heap@ == old(self).heap@ && r is Err && blames(
                    r->Err_0,
                    no_device_text(old(self).heap@, device),
                ),
                Some(n) => {
                    let name = vstd::utf8::encode_utf8(old(self).handles.devices@[n].name@);
                    if 1 + (name.len() + 7) / 8 < MAX_CELL_WORDS && old(self).heap@.dom().len() < MAX_CELLS {
                        match r {
                            Ok(Value::Held(c)) => {
                                &&& !old(self).heap@.contains_key(c.0)
                                &&& final(self).heap@.contains_key(c.0)
                                &&& final(self).heap@ == old(self).heap@.insert(c.0, final(self).heap@[c.0])
                                &&& is_string(final(self).heap@[c.0], name)
                            },
                            _ => false,
                        }
                    } else {
                        final(self).heap@ == old(self).heap@ && r == Err::<Value, Stop>(Stop::HeapFull)
                    }
                },
            },
    {
        let name = match device_of(&self.heap, &self.handles, device) {
            Ok((_, info)) => info.name.clone(),
            Err(s) => {
                return Err(s);
            },
        };
        match crate::vm::making::string(&mut self.heap, name.as_str().as_bytes()) {
            Ok(c) => Ok(Value::Held(c)),
            Err(_) => Err(Stop::HeapFull),
        }
    }

    /// How many bytes a buffer holds.
    pub fn metal_byte_size(&self, buffer: Value) -> (r: Result<Value, Stop>)
        requires
            self.ok(),
        ensures
            match buffer_at(self.heap@, self.handles.buffers@, buffer) {
                None => r is Err && blames(r->Err_0, no_buffer_text(self.heap@, buffer)),
                Some(n) => r == Ok::<Value, Stop>(Value::Int(self.handles.buffers@[n] as u128)),
            },
    {
        match buffer_of(&self.heap, &self.handles, buffer) {
            Ok((_, len)) => Ok(Value::Int(len as u128)),
            Err(s) => Err(s),
        }
    }
}

/// The bits of the binary that a value is.
pub open spec fn binary_at(m: Cells, v: Value) -> Option<Bits> {
    match v {
        Value::Held(c) => bits_at(m, c),
        _ => None,
    }
}

impl<P: Platform> Machine<P> {
    /// The bits of the binary that a value is.
    fn binary(&self, v: Value) -> (r: Result<Bits, Stop>)
        requires
            self.ok(),
        ensures
            match r {
                Ok(b) => binary_at(self.heap@, v) == Some(b) && b.is_in(self.heap@),
                Err(s) => binary_at(self.heap@, v) is None && blames(s, wrong_kind_text(v, "Binary"@)),
            },
    {
        match v.as_cell() {
            Some(c) => match bits(&self.heap, c) {
                Some(b) => Ok(b),
                None => Err(wrong_kind(v, "Binary")),
            },
            None => Err(wrong_kind(v, "Binary")),
        }
    }

    /// What a platform's answer to a request for a buffer of `len` bytes is to the program.
    pub fn buffer_answered(&mut self, id: Id<Buffer>, len: u64, answer: Result<(), BufferError>) -> (r: Result<
        Answer,
        Stop,
    >)
        requires
            old(self).heap.sound(),
            all_ok(old(self).heap@),
            old(self).handles.ok(),
            id@ != 0,
            match old(self).gpu {
                Some(g) => g.ok() && agrees(
                    old(self).handles.devices@,
                    match answer {
                        Ok(_) => old(self).handles.buffers@.insert(id@, len),
                        Err(_) => old(self).handles.buffers@,
                    },
                    &g.platform,
                ),
                None => false,
            },
        ensures
            final(self).ok(),
            final(self).gpu == old(self).gpu,
            final(self).staged == old(self).staged,
            final(self).types == old(self).types,
            final(self).heap.freed() == old(self).heap.freed(),
            final(self).handles.devices@ == old(self).handles.devices@,
            final(self).handles.buffers@ == (match answer {
                Ok(_) => old(self).handles.buffers@.insert(id@, len),
                Err(_) => old(self).handles.buffers@,
            }),
            match answer {
                Ok(_) => handle_answer(Handle::Buffer(id), old(self).heap@, final(self).heap@, r),
                Err(BufferError::OutOfMemory) => error_answer(
                    old(self).types,
                    MetalError::OutOfMemory,
                    old(self).heap@,
                    final(self).heap@,
                    r,
                ),
                Err(BufferError::Fault(f)) => final(self).heap@ == old(self).heap@ && r == Err::<Answer, Stop>(
                    Stop::PlatformFault(f.0),
                ),
            },
    {
        match answer {
            Ok(_) => {
                self.handles.buffers.insert(id.raw(), len);
                self.new_handle(Handle::Buffer(id))
            },
            Err(BufferError::OutOfMemory) => self.metal_err(MetalError::OutOfMemory),
            Err(BufferError::Fault(f)) => Err(fault(f)),
        }
    }

    /// A buffer on a device, with a copy of the bytes of a binary. Every check comes before
    /// the bytes are found, so a request that is refused neither copies them nor counts a
    /// copy. What the platform answers is up to it: [`Machine::buffer_answered`] says what
    /// each answer is to the program.
    pub fn metal_buffer(&mut self, device: Value, bytes: Value) -> (r: Result<Answer, Stop>)
        requires
            old(self).ok(),
        ensures
            final(self).ok(),
            final(self).types == old(self).types,
            buffer_request(*old(self), *final(self), device, bytes, r),
    {
        match device_of(&self.heap, &self.handles, device) {
            Ok(_) => {},
            Err(s) => {
                return Err(s);
            },
        }
        let b = match self.binary(bytes) {
            Ok(b) => b,
            Err(s) => {
                return Err(s);
            },
        };
        if b.len % 8 != 0 {
            return self.metal_err(MetalError::UnalignedBinary);
        }
        self.release_freed();
        let len = b.len / 8;
        let unfit: Option<Unfit>;
        let fits: Option<Fits>;
        match device_of(&self.heap, &self.handles, device) {
            Ok((id, info)) => match Fits::check(id, info, len) {
                Ok(f) => {
                    fits = Some(f);
                    unfit = None;
                },
                Err(e) => {
                    fits = None;
                    unfit = Some(e);
                },
            },
            Err(s) => {
                return Err(s);
            },
        }
        let fits = match fits {
            Some(f) => f,
            None => {
                return match unfit {
                    Some(Unfit::TooLarge(max_bytes)) => self.metal_err(MetalError::TooLarge { max_bytes }),
                    _ => self.metal_err(MetalError::EmptyBuffer),
                };
            },
        };
        let ghost mid = *self;
        let id: Id<Buffer>;
        let answer: Result<(), BufferError>;
        match &mut self.gpu {
            Some(gpu) => {
                id = match gpu.next() {
                    Ok(id) => id,
                    Err(_) => {
                        return Err(Stop::OutOfIds);
                    },
                };
                let view = byte_view(&self.heap, b);
                match &view {
                    ByteView::Owned(copy) => {
                        let n = copy.len() as u64;
                        self.staged = if self.staged <= u64::MAX - n {
                            self.staged + n
                        } else {
                            u64::MAX
                        };
                    },
                    ByteView::Borrowed(_) => {},
                }
                assert(view@.len() == len);
                answer = match fits.bytes(view.as_slice()) {
                    Some(list) => gpu.platform.buffer(id, list),
                    None => Err(BufferError::OutOfMemory),
                };
            },
            None => {
                return Err(Stop::BadProgram("a Metal handle, in a run with no platform to make one".to_owned()));
            },
        }
        assert(id@ != 0);
        assert(carries(*old(self), *self)) by {
            assert forall|k: u64| #[trigger] old(self).left_buffers().contains_key(k) implies self.held_bytes(k) == old(
                self,
            ).held_bytes(k) by {
                assert(mid.gpu->0.platform.buffers().contains_key(k));
            }
        }
        self.buffer_answered(id, len, answer)
    }

    /// Counts bytes that were copied, up to as many as can be counted.
    fn stage(&mut self, n: u64)
        ensures
            final(self).staged == counted(old(self).staged, n as int),
            final(self).heap == old(self).heap,
            final(self).handles == old(self).handles,
            final(self).gpu == old(self).gpu,
            final(self).types == old(self).types,
    {
        self.staged = if self.staged <= u64::MAX - n {
            self.staged + n
        } else {
            u64::MAX
        };
    }

    /// What a platform's answer to a read of a buffer of `len` bytes is to the program:
    /// `cell` has been begun for as many. Where the bytes of an owner do not lie `in_place` in
    /// its words, those that are read are counted as copied.
    pub fn read_answered(&mut self, cell: Cell, len: u64, answer: Result<Vec<u8>, Fault>, in_place: bool) -> (r: Result<
        Answer,
        Stop,
    >)
        requires
            old(self).heap.sound(),
            old(self).heap@.contains_key(cell.0),
            old(self).heap@[cell.0].kind is Binary,
            old(self).heap@[cell.0].refs == 1,
            all_ok(old(self).heap@.remove(cell.0)),
            8 * len <= u64::MAX,
            crate::vm::making::is_begun(old(self).heap@[cell.0].data, 8 * len),
            match answer {
                Ok(list) => list@.len() == len,
                Err(_) => true,
            },
        ensures
            final(self).handles == old(self).handles,
            final(self).gpu == old(self).gpu,
            final(self).types == old(self).types,
            final(self).heap.freed() == old(self).heap.freed(),
            final(self).staged == (if answer is Ok && !in_place {
                counted(old(self).staged, len as int)
            } else {
                old(self).staged
            }),
            final(self).heap.sound(),
            all_ok(final(self).heap@),
            match answer {
                Ok(list) => {
                    &&& r == Ok::<Answer, Stop>(Ok(Value::Held(cell)))
                    &&& is_new_binary(
                        old(self).heap@.remove(cell.0),
                        final(self).heap@,
                        cell,
                        bits_in(list@, 8 * len),
                    )
                },
                Err(f) => {
                    &&& r == Err::<Answer, Stop>(Stop::PlatformFault(f.0))
                    &&& final(self).heap@ == old(self).heap@.remove(cell.0)
                },
            },
    {
        let ghost base = self.heap@.remove(cell.0);
        match answer {
            Ok(list) => {
                let ghost d1 = self.heap@[cell.0].data;
                let ghost bits = bits_in(list@, 8 * len);
                crate::vm::making::write(&mut self.heap, cell, 0, &list);
                proof {
                    let d = self.heap@[cell.0].data;
                    crate::vm::bits::bits_make_bytes(list@);
                    assert forall|k: int| 0 <= k < len implies #[trigger] owner_byte_at(d, k) == byte_from(bits, 8 * k) by {
                        byte_at(bits, k);
                    }
                    assert forall|k: int| len <= k implies #[trigger] owner_byte_at(d, k) == 0 by {
                        assert(owner_byte_at(d1, k) == 0);
                    }
                    assert(self.heap@ =~= base.insert(cell.0, self.heap@[cell.0]));
                    binary_is_new(base, self.heap@, cell, bits);
                }
                if !in_place {
                    self.stage(len);
                }
                Ok(Ok(Value::Held(cell)))
            },
            Err(f) => {
                self.heap.discard(cell);
                Err(fault(f))
            },
        }
    }

    /// The bytes of a buffer, as a new binary. What the platform answers is up to it:
    /// [`Machine::read_answered`] says what each answer is to the program.
    pub fn metal_read(&mut self, buffer: Value) -> (r: Result<Answer, Stop>)
        requires
            old(self).ok(),
        ensures
            final(self).ok(),
            final(self).types == old(self).types,
            read_request(*old(self), *final(self), buffer, r),
    {
        match buffer_of(&self.heap, &self.handles, buffer) {
            Ok(_) => {},
            Err(s) => {
                return Err(s);
            },
        }
        self.release_freed();
        let (id, len) = match buffer_of(&self.heap, &self.handles, buffer) {
            Ok(found) => found,
            Err(s) => {
                return Err(s);
            },
        };
        if len > u64::MAX / 8 {
            return Err(Stop::HeapFull);
        }
        let ghost mid = *self;
        let ghost base = self.heap@;
        let cell = match begin(&mut self.heap, len * 8) {
            Ok(c) => c,
            Err(_) => {
                return Err(Stop::HeapFull);
            },
        };
        assert(self.heap@.remove(cell.0) =~= base);
        assert(len <= 8 * MAX_CELL_WORDS);
        let into = zeros(len as usize);
        let answer = match &mut self.gpu {
            Some(gpu) => match ReadInto::check(id, len, into) {
                Some(to) => gpu.platform.read(to),
                None => Err(Fault::new(String::new())),
            },
            None => {
                self.heap.discard(cell);
                return Err(Stop::BadProgram("a Metal handle, in a run with no platform to make one".to_owned()));
            },
        };
        assert(mid.gpu->0.platform.buffers().contains_key(id@));
        assert(self.gpu->0.last == mid.gpu->0.last);
        assert(keeps_bytes(&old(self).gpu->0.platform, &self.gpu->0.platform));
        self.read_answered(cell, len, answer, bytes_in_place())
    }

    /// Ends the run. However it ended, the platform releases the handles that were freed, and
    /// then every object that it still holds: buffers first, then devices, each in the order in
    /// which they were made.
    pub fn end(self) -> (gpu: Option<Gpu<P>>)
        requires
            self.ok(),
        ensures
            gpu is Some <==> self.gpu is Some,
            match (gpu, self.gpu) {
                (Some(b), Some(a)) => {
                    &&& b.ok()
                    &&& b.last == a.last
                    &&& forall|n: u64| !(#[trigger] b.platform.devices().contains(n))
                    &&& forall|n: u64| !(#[trigger] b.platform.buffers().contains_key(n))
                    &&& exists|rest: Seq<Handle>| #[trigger]
                        is_all_in_order(rest, self.left_devices().dom(), self.left_buffers().dom())
                            && b.platform.released() == a.platform.released() + self.freed_and_held() + rest
                },
                _ => true,
            },
    {
        let mut m = self;
        m.release_freed();
        let list = m.handles.forget_all();
        let mut i: usize = 0;
        let mut gpu = m.gpu;
        assert(list@.skip(0) =~= list@);
        assert(gpu is Some ==> gpu->0.platform.released() =~= self.gpu->0.platform.released() + self.freed_and_held()
            + list@.take(0));
        while i < list.len()
            invariant
                i <= list@.len(),
                gpu is Some <==> self.gpu is Some,
                forall|a: int, b: int| 0 <= a < b < list@.len() ==> goes_before(#[trigger] list@[a], #[trigger] list@[b]),
                match (gpu, self.gpu) {
                    (Some(b), Some(a)) => {
                        &&& b.ok()
                        &&& b.last == a.last
                        &&& forall|n: u64| #[trigger] b.platform.devices().contains(n) <==> has_device(list@.skip(i as int), n)
                        &&& forall|n: u64| #[trigger]
                            b.platform.buffers().contains_key(n) <==> has_buffer(list@.skip(i as int), n)
                        &&& b.platform.released() == a.platform.released() + self.freed_and_held() + list@.take(i as int)
                    },
                    _ => true,
                },
            decreases list@.len() - i,
        {
            proof {
                assert(list@.skip(i as int)[0] == list@[i as int]);
                assert(list@[i as int] is Device ==> has_device(list@.skip(i as int), list@[i as int]->Device_0@));
                assert(list@[i as int] is Buffer ==> has_buffer(list@.skip(i as int), list@[i as int]->Buffer_0@));
                one_handle_less(list@, i as int);
            }
            match &mut gpu {
                Some(g) => {
                    g.platform.release(list[i]);
                },
                None => {},
            }
            assert(gpu is Some ==> gpu->0.platform.released() =~= self.gpu->0.platform.released() + self.freed_and_held()
                + list@.take(i + 1));
            i += 1;
        }
        proof {
            assert(list@.skip(i as int).len() == 0);
            assert(list@.take(i as int) =~= list@);
            assert(is_all_in_order(list@, self.left_devices().dom(), self.left_buffers().dom()));
        }
        gpu
    }
}

/// So many zero bytes.
fn zeros(n: usize) -> (out: Vec<u8>)
    ensures
        out@.len() == n,
{
    let mut out: Vec<u8> = Vec::new();
    while out.len() < n
        invariant
            out@.len() <= n,
        decreases n - out@.len(),
    {
        out.push(0);
    }
    out
}

/// The handles after the first of some that are all different.
proof fn one_handle_less(list: Seq<Handle>, i: int)
    requires
        0 <= i < list.len(),
        forall|a: int, b: int| 0 <= a < b < list.len() ==> goes_before(#[trigger] list[a], #[trigger] list[b]),
    ensures
        forall|n: u64| #[trigger]
            has_device(list.skip(i + 1), n) <==> has_device(list.skip(i), n) && !(list[i] is Device && list[i]->Device_0@ == n),
        forall|n: u64| #[trigger]
            has_buffer(list.skip(i + 1), n) <==> has_buffer(list.skip(i), n) && !(list[i] is Buffer && list[i]->Buffer_0@ == n),
{
    let (s, t) = (list.skip(i), list.skip(i + 1));
    assert forall|n: u64| #[trigger] has_device(t, n) <==> has_device(s, n) && !(list[i] is Device && list[i]->Device_0@ == n) by {
        if has_device(t, n) {
            let k = choose|k: int| 0 <= k < t.len() && #[trigger] t[k] is Device && t[k]->Device_0@ == n;
            assert(s[k + 1] == t[k]);
            assert(goes_before(list[i], list[i + 1 + k]));
        }
        if has_device(s, n) {
            let k = choose|k: int| 0 <= k < s.len() && #[trigger] s[k] is Device && s[k]->Device_0@ == n;
            if k > 0 {
                assert(t[k - 1] == s[k]);
            }
        }
    }
    assert forall|n: u64| #[trigger] has_buffer(t, n) <==> has_buffer(s, n) && !(list[i] is Buffer && list[i]->Buffer_0@ == n) by {
        if has_buffer(t, n) {
            let k = choose|k: int| 0 <= k < t.len() && #[trigger] t[k] is Buffer && t[k]->Buffer_0@ == n;
            assert(s[k + 1] == t[k]);
            assert(goes_before(list[i], list[i + 1 + k]));
        }
        if has_buffer(s, n) {
            let k = choose|k: int| 0 <= k < s.len() && #[trigger] s[k] is Buffer && s[k]->Buffer_0@ == n;
            if k > 0 {
                assert(t[k - 1] == s[k]);
            }
        }
    }
}

/// The platform has been told of freed handles, and has been asked for nothing: no id is
/// taken, and the buffers that are left hold what they held.
pub open spec fn is_released<P: Platform>(before: Machine<P>, after: Machine<P>) -> bool {
    &&& after.is_after_release(&before)
    &&& after.handles.devices@ == before.left_devices()
    &&& after.handles.buffers@ == before.left_buffers()
    &&& match (before.gpu, after.gpu) {
        (Some(a), Some(b)) => {
            &&& b.last == a.last
            &&& keeps_bytes(&a.platform, &b.platform)
            &&& b.platform.released() == a.platform.released() + before.freed_and_held()
        },
        _ => true,
    }
}

/// Nothing about a run has changed, though the platform may have been told of freed handles.
pub open spec fn is_released_run<P: Platform>(before: Machine<P>, after: Machine<P>) -> bool {
    is_released(before, after) && after.staged == before.staged
}

/// The buffers that are left of a run hold what they held, and no object but the freed handles
/// has been let go of.
pub open spec fn carries<P: Platform>(before: Machine<P>, after: Machine<P>) -> bool {
    &&& forall|k: u64| #[trigger] before.left_buffers().contains_key(k) ==> after.held_bytes(k) == before.held_bytes(k)
    &&& after.gpu->0.platform.released() == before.gpu->0.platform.released() + before.freed_and_held()
}

/// What a request for a device comes to.
pub open spec fn device_request<P: Platform>(before: Machine<P>, after: Machine<P>, r: Result<Answer, Stop>) -> bool {
    let m = before.heap@;
    match before.gpu {
        None => is_released_run(before, after) && error_answer(before.types, MetalError::Unsupported, m, after.heap@, r),
        Some(g) => if g.last == u64::MAX {
            is_released_run(before, after) && after.heap@ == m && r == Err::<Answer, Stop>(Stop::OutOfIds)
        } else {
            let n = (g.last + 1) as u64;
            &&& after.is_after_release(&before)
            &&& after.staged == before.staged
            &&& after.gpu->0.last == n
            &&& after.handles.buffers@ == before.left_buffers()
            &&& carries(before, after)
            &&& !before.left_devices().contains_key(n)
            &&& if after.handles.devices@.contains_key(n) {
                &&& after.handles.devices@ == before.left_devices().insert(n, after.handles.devices@[n])
                &&& exists|id: Id<Device>| #[trigger] handle_answer(Handle::Device(id), m, after.heap@, r) && id@ == n
            } else {
                &&& after.handles.devices@ == before.left_devices()
                &&& {
                    ||| error_answer(before.types, MetalError::Unsupported, m, after.heap@, r)
                    ||| error_answer(before.types, MetalError::NoDevice, m, after.heap@, r)
                    ||| after.heap@ == m && r is Err && r->Err_0 is PlatformFault
                }
            }
        },
    }
}

/// What a request for a buffer comes to.
pub open spec fn buffer_request<P: Platform>(
    before: Machine<P>,
    after: Machine<P>,
    device: Value,
    bytes: Value,
    r: Result<Answer, Stop>,
) -> bool {
    let m = before.heap@;
    if device_at(m, before.handles.devices@, device) is None {
        after == before && r is Err && blames(r->Err_0, no_device_text(m, device))
    } else if binary_at(m, bytes) is None {
        after == before && r is Err && blames(r->Err_0, wrong_kind_text(bytes, "Binary"@))
    } else {
        let b = binary_at(m, bytes)->0;
        let len = (b.len / 8) as u64;
        if b.len % 8 != 0 {
            after.is_like(&before) && error_answer(before.types, MetalError::UnalignedBinary, m, after.heap@, r)
        } else if device_at(m, before.left_devices(), device) is None {
            is_released_run(before, after) && after.heap@ == m && r is Err && blames(r->Err_0, no_device_text(m, device))
        } else {
            let info = before.left_devices()[device_at(m, before.left_devices(), device)->0];
            match fit(len as int, info.max_buffer_bytes) {
                Err(Unfit::Empty) => is_released_run(before, after) && error_answer(
                    before.types,
                    MetalError::EmptyBuffer,
                    m,
                    after.heap@,
                    r,
                ),
                Err(Unfit::TooLarge(max_bytes)) => is_released_run(before, after) && error_answer(
                    before.types,
                    MetalError::TooLarge { max_bytes },
                    m,
                    after.heap@,
                    r,
                ),
                Ok(_) => if before.gpu->0.last == u64::MAX {
                    is_released_run(before, after) && after.heap@ == m && r == Err::<Answer, Stop>(Stop::OutOfIds)
                } else {
                    asked_for_buffer(before, after, b, r)
                },
            }
        }
    }
}

/// What a request for a buffer comes to that the platform was asked for.
pub open spec fn asked_for_buffer<P: Platform>(before: Machine<P>, after: Machine<P>, b: Bits, r: Result<Answer, Stop>) -> bool {
    let m = before.heap@;
    let len = (b.len / 8) as u64;
    let n = (before.gpu->0.last + 1) as u64;
    &&& after.is_after_release(&before)
    &&& after.gpu->0.last == n
    &&& after.handles.devices@ == before.left_devices()
    &&& !before.left_buffers().contains_key(n)
    &&& carries(before, after)
    &&& after.staged == counted(before.staged, len as int) || (b.at % 8 == 0 && after.staged == before.staged)
    &&& if after.handles.buffers@.contains_key(n) {
        &&& after.handles.buffers@ == before.left_buffers().insert(n, len)
        &&& after.gpu->0.platform.buffers()[n] == to_bytes(b.of(m))
        &&& exists|id: Id<Buffer>| #[trigger] handle_answer(Handle::Buffer(id), m, after.heap@, r) && id@ == n
    } else {
        &&& after.handles.buffers@ == before.left_buffers()
        &&& {
            ||| error_answer(before.types, MetalError::OutOfMemory, m, after.heap@, r)
            ||| after.heap@ == m && r is Err && r->Err_0 is PlatformFault
        }
    }
}

/// What a read of a buffer comes to.
pub open spec fn read_request<P: Platform>(before: Machine<P>, after: Machine<P>, buffer: Value, r: Result<Answer, Stop>) -> bool {
    let m = before.heap@;
    if buffer_at(m, before.handles.buffers@, buffer) is None {
        after == before && r is Err && blames(r->Err_0, no_buffer_text(m, buffer))
    } else if buffer_at(m, before.left_buffers(), buffer) is None {
        is_released_run(before, after) && after.heap@ == m && r is Err && blames(r->Err_0, no_buffer_text(m, buffer))
    } else {
        let n = buffer_at(m, before.left_buffers(), buffer)->0;
        let len = before.left_buffers()[n];
        &&& is_released(before, after)
        &&& match r {
            Ok(Ok(Value::Held(c))) => {
                &&& has_room(m, 8 * len)
                &&& is_new_binary(m, after.heap@, c, bits_in(before.held_bytes(n), 8 * len))
                &&& after.staged == before.staged || after.staged == counted(before.staged, len as int)
            },
            Err(Stop::HeapFull) => !has_room(m, 8 * len) && after.heap@ == m && after.staged == before.staged,
            Err(Stop::PlatformFault(_)) => has_room(m, 8 * len) && after.heap@ == m && after.staged == before.staged,
            _ => false,
        }
    }
}

/// Something that a run does, and what it came to: the program runs on by itself, which may
/// change its heap, or it asks for something, or the handles it has freed are released.
pub enum Deed {
    Program,
    Release,
    Device { r: Result<Answer, Stop> },
    Buffer { device: Value, bytes: Value, r: Result<Answer, Stop> },
    Read { buffer: Value, r: Result<Answer, Stop> },
}

/// A run has done something.
pub open spec fn is_done<P: Platform>(d: Deed, before: Machine<P>, after: Machine<P>) -> bool {
    match d {
        Deed::Program => after.handles == before.handles && after.gpu == before.gpu,
        Deed::Release => is_released(before, after),
        Deed::Device { r } => device_request(before, after, r),
        Deed::Buffer { device, bytes, r } => buffer_request(before, after, device, bytes, r),
        Deed::Read { buffer, r } => read_request(before, after, buffer, r),
    }
}

/// A run has done one thing after another.
pub open spec fn are_done<P: Platform>(deeds: Seq<Deed>, run: Seq<Machine<P>>) -> bool {
    &&& run.len() == deeds.len() + 1
    &&& forall|i: int| 0 <= i < run.len() ==> (#[trigger] run[i]).ok()
    &&& forall|i: int| 0 <= i < deeds.len() ==> is_done(#[trigger] deeds[i], run[i], run[i + 1])
}

/// A buffer that a run holds after doing something, and whose id had been given out before it,
/// was held before it, with the same bytes.
pub proof fn a_deed_keeps_bytes<P: Platform>(d: Deed, before: Machine<P>, after: Machine<P>, n: u64)
    requires
        before.ok(),
        after.ok(),
        is_done(d, before, after),
        before.gpu is Some,
        n <= before.gpu->0.last,
        after.handles.buffers@.contains_key(n),
    ensures
        before.handles.buffers@.contains_key(n),
        after.gpu is Some,
        before.gpu->0.last <= after.gpu->0.last,
        after.held_bytes(n) == before.held_bytes(n),
{
    assert(after.gpu->0.platform.buffers().contains_key(n));
    assert(before.left_buffers().contains_key(n) ==> before.handles.buffers@.contains_key(n));
}

/// A read of a buffer that a run still holds gives back what the buffer was made with, whatever
/// the run has done in between: the bits of the binary that was handed in are those of the
/// binary that comes out. `made` is what the request for the buffer gave, and `buffer` a value
/// that names the same buffer at the time of the read.
pub proof fn a_read_gives_back_what_was_written<P: Platform>(
    before: Machine<P>,
    device: Value,
    bytes: Value,
    made: Value,
    deeds: Seq<Deed>,
    run: Seq<Machine<P>>,
    buffer: Value,
    after: Machine<P>,
    read: Cell,
)
    requires
        are_done(deeds, run),
        buffer_request(before, run[0], device, bytes, Ok(Ok(made))),
        handle_at(run.last().heap@, buffer) == handle_at(run[0].heap@, made),
        read_request(run.last(), after, buffer, Ok(Ok(Value::Held(read)))),
    ensures
        binary_at(before.heap@, bytes) is Some,
        bits_at(after.heap@, read) is Some,
        bits_at(after.heap@, read)->0.of(after.heap@) == binary_at(before.heap@, bytes)->0.of(before.heap@),
{
    let m = before.heap@;
    let b = binary_at(m, bytes)->0;
    let n = (before.gpu->0.last + 1) as u64;
    assert(asked_for_buffer(before, run[0], b, Ok(Ok(made))));
    assert(handle_at(run[0].heap@, made) == Some((true, n)));
    assert(run.last().handles.buffers@.contains_key(n));
    held_all_along(deeds, run, n, 0);
    let bits = b.of(m);
    crate::vm::bits::bytes_hold_bits(bits, bits.len() as int);
    assert(bits_in(to_bytes(bits), bits.len() as int) =~= bits);
}

/// A buffer that is held at the end of a run was held from any time on at which its id had been
/// given out, with the same bytes.
proof fn held_all_along<P: Platform>(deeds: Seq<Deed>, run: Seq<Machine<P>>, n: u64, from: int)
    requires
        are_done(deeds, run),
        0 <= from < run.len(),
        run[from].gpu is Some,
        n <= run[from].gpu->0.last,
        run.last().handles.buffers@.contains_key(n),
    ensures
        run[from].handles.buffers@.contains_key(n),
        run.last().held_bytes(n) == run[from].held_bytes(n),
        run.last().handles.buffers@[n] == run[from].handles.buffers@[n],
    decreases run.len() - from,
{
    if from < run.len() - 1 {
        let (s, t) = (run[from], run[from + 1]);
        assert(is_done(deeds[from], s, t));
        assert(s.ok() && t.ok());
        ids_only_grow(deeds[from], s, t);
        held_all_along(deeds, run, n, from + 1);
        a_deed_keeps_bytes(deeds[from], s, t, n);
        assert(s.gpu->0.platform.buffers().contains_key(n));
        assert(s.held_bytes(n).len() == s.handles.buffers@[n]);
        assert(t.held_bytes(n).len() == t.handles.buffers@[n]);
    }
}

/// A run that has a platform keeps it, and takes no id back.
pub proof fn ids_only_grow<P: Platform>(d: Deed, before: Machine<P>, after: Machine<P>)
    requires
        is_done(d, before, after),
        before.gpu is Some,
    ensures
        after.gpu is Some,
        before.gpu->0.last <= after.gpu->0.last,
{
}

/// A request that is refused before the platform is asked copies no bytes and counts no
/// copy, and takes no id: the run holds what it held and has not freed, and nothing else.
pub proof fn nothing_refused_is_staged<P: Platform>(
    before: Machine<P>,
    after: Machine<P>,
    device: Value,
    bytes: Value,
    r: Result<Answer, Stop>,
)
    requires
        buffer_request(before, after, device, bytes, r),
        match binary_at(before.heap@, bytes) {
            None => true,
            Some(b) => b.len % 8 != 0 || match device_at(before.heap@, before.left_devices(), device) {
                None => true,
                Some(n) => fit((b.len / 8) as int, before.left_devices()[n].max_buffer_bytes) is Err || before.gpu->0.last
                    == u64::MAX,
            },
        },
    ensures
        after.staged == before.staged,
        before.gpu is Some ==> after.gpu is Some && after.gpu->0.last == before.gpu->0.last,
        before.gpu is Some ==> keeps_bytes(&before.gpu->0.platform, &after.gpu->0.platform),
        forall|n: u64| #[trigger]
            after.handles.buffers@.contains_key(n) ==> before.handles.buffers@.contains_key(n) && after.handles.buffers@[n]
                == before.handles.buffers@[n],
{
}

/// Handles one of which comes after the others.
proof fn one_more_handle(list: Seq<Handle>, i: int, n: u64)
    requires
        0 <= i < list.len(),
    ensures
        has_device(list.take(i + 1), n) <==> has_device(list.take(i), n) || (list[i] is Device && list[i]->Device_0@ == n),
        has_buffer(list.take(i + 1), n) <==> has_buffer(list.take(i), n) || (list[i] is Buffer && list[i]->Buffer_0@ == n),
{
    let (s, t) = (list.take(i), list.take(i + 1));
    assert(t[i] == list[i]);
    if has_device(s, n) {
        let k = choose|k: int| 0 <= k < s.len() && #[trigger] s[k] is Device && s[k]->Device_0@ == n;
        assert(t[k] == s[k]);
    }
    if has_device(t, n) {
        let k = choose|k: int| 0 <= k < t.len() && #[trigger] t[k] is Device && t[k]->Device_0@ == n;
        if k < i {
            assert(s[k] == t[k]);
        }
    }
    if has_buffer(s, n) {
        let k = choose|k: int| 0 <= k < s.len() && #[trigger] s[k] is Buffer && s[k]->Buffer_0@ == n;
        assert(t[k] == s[k]);
    }
    if has_buffer(t, n) {
        let k = choose|k: int| 0 <= k < t.len() && #[trigger] t[k] is Buffer && t[k]->Buffer_0@ == n;
        if k < i {
            assert(s[k] == t[k]);
        }
    }
}

} // verus!
