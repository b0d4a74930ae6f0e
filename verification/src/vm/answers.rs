//! What a program is answered that asks for a GPU: which error for which request, which handles are
//! let go of, and in what order.
use vstd::prelude::*;

use crate::core_ir::Variant;
use crate::text::decimal;
use crate::vm::fake::{bad_read, handle_text, on_no_device};
use crate::vm::heap::{names, Cells};
use crate::vm::id::{Buffer, Device, Handle, Id};
use crate::vm::metal::{
    binary_at, buffer_at, buffer_request, device_at, device_request, error_answer, goes_before, handle_at,
    has_buffer, has_device, has_handle, held_of, holds, no_buffer_text,
    no_device_text, not_held_text, read_request, with_field, wrong_kind_text, Answer, Machine,
    MetalError, MetalTypes, Stop,
};
use crate::vm::objects::{made_twice_text, not_kept_text, wrong_room_text};
use crate::vm::platform::{fit, read_as_text, Platform, Unfit};
use crate::vm::value::{Cell, Value};

verus! {

/// Bytes fit a buffer exactly where there is at least one and there are no more than the device
/// takes.
pub proof fn what_fits_a_buffer(len: int, max: u64)
    requires
        0 <= len,
    ensures
        fit(len, max) is Ok <==> 1 <= len <= max,
        fit(len, max) == Err::<(), Unfit>(Unfit::Empty) <==> len == 0,
        fit(len, max) == Err::<(), Unfit>(Unfit::TooLarge(max)) <==> len > max && len > 0,
{
}

/// Each error is answered with the constructor that the program has for it, and only the one for a
/// size has a field, the largest size there is; a program without the constructors is at fault.
pub proof fn each_error_has_its_constructor(
    t: MetalTypes,
    e: MetalError,
    before: Cells,
    after: Cells,
    r: Result<Answer, Stop>,
)
    requires
        error_answer(Some(t), e, before, after, r),
    ensures
        e is Unsupported ==> r == Ok::<Answer, Stop>(Err(Value::Nullary(t.unsupported))) && after == before,
        e is NoDevice ==> r == Ok::<Answer, Stop>(Err(Value::Nullary(t.no_device))) && after == before,
        e is EmptyBuffer ==> r == Ok::<Answer, Stop>(Err(Value::Nullary(t.empty_buffer))) && after == before,
        e is UnalignedBinary ==> r == Ok::<Answer, Stop>(Err(Value::Nullary(t.unaligned_binary))) && after == before,
        e is OutOfMemory ==> r == Ok::<Answer, Stop>(Err(Value::Nullary(t.out_of_memory))) && after == before,
        e is TooLarge ==> match r {
            Ok(Err(Value::Held(c))) => {
                &&& !before.contains_key(c.0)
                &&& after.contains_key(c.0)
                &&& after[c.0].kind is Ctor
                &&& after[c.0].refs == 1
                &&& after[c.0].data == with_field(t.too_large, e->max_bytes)
                &&& forall|d: u32| #[trigger] before.contains_key(d) ==> after.contains_key(d) && after[d] == before[d]
            },
            Err(Stop::HeapFull) => after == before && before.dom().len() >= 4294967295,
            _ => false,
        },
{
}

/// A cell that was made for a handle is read as that handle: of its own kind, and with its own id.
pub proof fn a_handle_is_read_back(m: Cells, c: Cell, h: Handle)
    requires
        m.contains_key(c.0),
        m[c.0].kind is Handle,
        names(m[c.0].data, h),
    ensures
        match h {
            Handle::Device(id) => handle_at(m, Value::Held(c)) == Some((false, id@)),
            Handle::Buffer(id) => handle_at(m, Value::Held(c)) == Some((true, id@)),
        },
{
}

/// A value names a device exactly where it is a cell with a device's handle that the run holds, and
/// likewise a buffer; no value names both.
pub proof fn a_value_names_one_object<P: Platform>(run: Machine<P>, v: Value)
    ensures
        ({
            let m = run.heap@;
            let (d, b) = (device_at(m, run.handles.devices@, v), buffer_at(m, run.handles.buffers@, v));
            &&& d is None || b is None
            &&& d is Some ==> run.handles.devices@.contains_key(d->0)
            &&& b is Some ==> run.handles.buffers@.contains_key(b->0)
            &&& d is Some || b is Some ==> v is Held && m.contains_key((v->Held_0).0) && m[(v->Held_0).0].kind is Handle
            &&& d is Some ==> m[(v->Held_0).0].data[0] == 0 && m[(v->Held_0).0].data[1] == d->0
            &&& b is Some ==> m[(v->Held_0).0].data[0] != 0 && m[(v->Held_0).0].data[1] == b->0
        }),
{
}

/// At the end buffers go before devices, and each kind from the lowest id up.
pub proof fn buffers_go_before_devices(a: Handle, b: Handle, c: Handle)
    ensures
        a is Buffer && b is Device ==> goes_before(a, b) && !goes_before(b, a),
        goes_before(a, b) ==> !goes_before(b, a),
        goes_before(a, b) && goes_before(b, c) ==> goes_before(a, c),
        a is Buffer && b is Buffer && a->Buffer_0@ < b->Buffer_0@ ==> goes_before(a, b),
        a is Device && b is Device && a->Device_0@ < b->Device_0@ ==> goes_before(a, b),
        !goes_before(a, a),
{
}

/// Of the handles that were freed the platform is told of those that the run held, each once.
pub proof fn what_was_held_is_told_once(list: Seq<Handle>, devices: Set<u64>, buffers: Set<u64>, h: Handle)
    ensures
        has_handle(held_of(list, devices, buffers), h) <==> has_handle(list, h) && holds(devices, buffers, h),
        forall|i: int|
            0 <= i < held_of(list, devices, buffers).len() ==> holds(
                devices,
                buffers,
                #[trigger] held_of(list, devices, buffers)[i],
            ),
    decreases list.len(),
{
    if list.len() > 0 {
        let rest = list.drop_last();
        let last = list.last();
        what_was_held_is_told_once(rest, devices, buffers, h);
        what_was_held_is_told_once(rest, devices, buffers, last);
        let (x, y) = (held_of(rest, devices, buffers), held_of(list, devices, buffers));
        one_at_the_end(rest, last, h);
        assert(list =~= rest.push(last));
        if holds(devices, buffers, last) && !has_handle(rest, last) {
            one_at_the_end(x, last, h);
        }
        if same_object(last, h) && has_handle(rest, last) {
            same_is_found(rest, last, h);
        }
    }
}

/// Two handles are of one object.
pub open spec fn same_object(a: Handle, b: Handle) -> bool {
    match (a, b) {
        (Handle::Device(x), Handle::Device(y)) => x@ == y@,
        (Handle::Buffer(x), Handle::Buffer(y)) => x@ == y@,
        _ => false,
    }
}

proof fn same_is_found(list: Seq<Handle>, a: Handle, b: Handle)
    requires
        same_object(a, b),
    ensures
        has_handle(list, a) <==> has_handle(list, b),
{
}

proof fn one_at_the_end(list: Seq<Handle>, last: Handle, h: Handle)
    ensures
        has_handle(list.push(last), h) <==> has_handle(list, h) || same_object(last, h),
{
    let all = list.push(last);
    assert(all[list.len() as int] == last);
    match h {
        Handle::Device(id) => {
            let n = id@;
            if has_device(list, n) {
                let i = choose|i: int| 0 <= i < list.len() && #[trigger] list[i] is Device && list[i]->Device_0@ == n;
                assert(all[i] == list[i]);
            }
            if has_device(all, n) {
                let i = choose|i: int| 0 <= i < all.len() && #[trigger] all[i] is Device && all[i]->Device_0@ == n;
                if i < list.len() {
                    assert(list[i] == all[i]);
                }
            }
        },
        Handle::Buffer(id) => {
            let n = id@;
            if has_buffer(list, n) {
                let i = choose|i: int| 0 <= i < list.len() && #[trigger] list[i] is Buffer && list[i]->Buffer_0@ == n;
                assert(all[i] == list[i]);
            }
            if has_buffer(all, n) {
                let i = choose|i: int| 0 <= i < all.len() && #[trigger] all[i] is Buffer && all[i]->Buffer_0@ == n;
                if i < list.len() {
                    assert(list[i] == all[i]);
                }
            }
        },
    }
}

/// What is left of what a run holds is what it held and has not freed, with what was known of it.
pub proof fn only_freed_objects_go<P: Platform>(run: Machine<P>, n: u64)
    ensures
        run.left_devices().contains_key(n) <==> run.handles.devices@.contains_key(n) && !has_device(run.heap.freed(), n),
        run.left_buffers().contains_key(n) <==> run.handles.buffers@.contains_key(n) && !has_buffer(run.heap.freed(), n),
        run.left_devices().contains_key(n) ==> run.left_devices()[n] == run.handles.devices@[n],
        run.left_buffers().contains_key(n) ==> run.left_buffers()[n] == run.handles.buffers@[n],
{
}

/// A request for a device or a buffer that gets as far as the platform takes one id, the next; a
/// device is answered with a handle of that id where the platform has made it, and with an error
/// where it has not.
pub proof fn a_device_gets_the_next_id<P: Platform>(before: Machine<P>, after: Machine<P>, r: Result<Answer, Stop>)
    requires
        device_request(before, after, r),
        before.gpu is Some,
        before.gpu->0.last < u64::MAX,
    ensures
        after.gpu is Some,
        after.gpu->0.last == before.gpu->0.last + 1,
        after.staged == before.staged,
        after.handles.buffers@ == before.left_buffers(),
        forall|k: u64| k != after.gpu->0.last ==> (#[trigger] after.handles.devices@.contains_key(k)
            <==> before.left_devices().contains_key(k)),
        match r {
            Ok(Ok(v)) => handle_at(after.heap@, v) == Some((false, after.gpu->0.last)) && after.handles.devices@.contains_key(
                after.gpu->0.last,
            ),
            Ok(Err(_)) => !after.handles.devices@.contains_key(after.gpu->0.last),
            Err(_) => true,
        },
{
}

/// A run without a platform is answered that there is none, and one whose ids have run out stops.
pub proof fn without_a_platform_there_is_no_device<P: Platform>(before: Machine<P>, after: Machine<P>, r: Result<Answer, Stop>)
    requires
        device_request(before, after, r),
        before.types is Some,
    ensures
        before.gpu is None ==> r == Ok::<Answer, Stop>(Err(Value::Nullary(before.types->0.unsupported))),
        before.gpu is Some && before.gpu->0.last == u64::MAX ==> r == Err::<Answer, Stop>(Stop::OutOfIds),
        before.gpu is None || before.gpu->0.last == u64::MAX ==> after.handles.devices@ == before.left_devices(),
{
}

/// A buffer is refused for what is wrong with it: bits that are no whole bytes, no bytes, and more
/// bytes than the device takes, in that order, each with its own error.
pub proof fn a_buffer_is_refused_for_what_is_wrong<P: Platform>(
    before: Machine<P>,
    after: Machine<P>,
    device: Value,
    bytes: Value,
    r: Result<Answer, Stop>,
)
    requires
        buffer_request(before, after, device, bytes, r),
        before.types is Some,
        device_at(before.heap@, before.left_devices(), device) is Some,
        device_at(before.heap@, before.handles.devices@, device) is Some,
        binary_at(before.heap@, bytes) is Some,
    ensures
        ({
            let len = binary_at(before.heap@, bytes)->0.len;
            let n = device_at(before.heap@, before.left_devices(), device)->0;
            let max = before.left_devices()[n].max_buffer_bytes;
            let t = before.types->0;
            &&& len % 8 != 0 ==> r == Ok::<Answer, Stop>(Err(Value::Nullary(t.unaligned_binary)))
            &&& len == 0 ==> r == Ok::<Answer, Stop>(Err(Value::Nullary(t.empty_buffer)))
            &&& len % 8 == 0 && len > 0 && len / 8 > max ==> error_answer(
                Some(t),
                MetalError::TooLarge { max_bytes: max },
                before.heap@,
                after.heap@,
                r,
            )
            &&& r is Ok && r->Ok_0 is Ok ==> len % 8 == 0 && 1 <= len / 8 <= max
        }),
{
}

/// A buffer that is made gets the next id, holds as many bytes as were handed in, and is answered
/// with a handle of its own.
pub proof fn a_buffer_gets_the_next_id<P: Platform>(
    before: Machine<P>,
    after: Machine<P>,
    device: Value,
    bytes: Value,
    made: Value,
)
    requires
        buffer_request(before, after, device, bytes, Ok(Ok(made))),
    ensures
        after.gpu is Some,
        after.gpu->0.last == before.gpu->0.last + 1,
        handle_at(after.heap@, made) == Some((true, after.gpu->0.last)),
        after.handles.buffers@.contains_key(after.gpu->0.last),
        8 * after.handles.buffers@[after.gpu->0.last] == binary_at(before.heap@, bytes)->0.len,
        after.handles.devices@ == before.left_devices(),
{
}

/// What names no device, or no binary, is the program's fault, and nothing is done about it.
pub proof fn a_wrong_value_is_the_programs_fault<P: Platform>(
    before: Machine<P>,
    after: Machine<P>,
    device: Value,
    bytes: Value,
    r: Result<Answer, Stop>,
)
    requires
        buffer_request(before, after, device, bytes, r),
        device_at(before.heap@, before.handles.devices@, device) is None || binary_at(before.heap@, bytes) is None,
    ensures
        after == before,
        r is Err,
        r->Err_0 is BadProgram,
{
}

/// A read of what is no buffer that the run holds is the program's fault, and a read makes and frees
/// no object.
pub proof fn a_read_changes_no_object<P: Platform>(before: Machine<P>, after: Machine<P>, buffer: Value, r: Result<Answer, Stop>)
    requires
        read_request(before, after, buffer, r),
    ensures
        buffer_at(before.heap@, before.handles.buffers@, buffer) is None ==> after == before && r is Err && r->Err_0 is BadProgram,
        buffer_at(before.heap@, before.handles.buffers@, buffer) is Some ==> {
            &&& after.handles.devices@ == before.left_devices()
            &&& after.handles.buffers@ == before.left_buffers()
            &&& before.gpu is Some && after.gpu is Some ==> after.gpu->0.last == before.gpu->0.last
        },
{
}

/// A value is told by what it is: an integer by its digits, a constructor by its number, and a cell
/// by its own.
pub proof fn values_are_told(n: u128, x: Variant, c: Cell, want: Seq<char>)
    ensures
        wrong_kind_text(Value::Nil, want) == "Nil where a "@ + want + " belongs"@,
        wrong_kind_text(Value::Int(n), want) == decimal(n as nat) + " where a "@ + want + " belongs"@,
        wrong_kind_text(Value::Nullary(x), want) == "constructor "@ + decimal(x.tag as nat) + " where a "@ + want
            + " belongs"@,
        wrong_kind_text(Value::Held(c), want) == "cell #"@ + decimal(c.0 as nat) + " where a "@ + want + " belongs"@,
        not_held_text(Value::Held(c)) == "cell #"@ + decimal(c.0 as nat) + ", a handle this run no longer holds"@,
{
    reveal_strlit("Nil where a ");
    reveal_strlit("Nil");
    reveal_strlit(" where a ");
    assert("Nil"@ + " where a "@ =~= "Nil where a "@);
}

/// A value in the place of a device is told to be a handle of the run only where it is one of a
/// device, and in the place of a buffer only where it is one of a buffer; any other is told to be
/// the wrong kind of value.
pub proof fn handles_are_told_apart(m: Cells, v: Value, n: u64)
    ensures
        handle_at(m, v) == Some((false, n)) ==> no_device_text(m, v) == not_held_text(v) && no_buffer_text(m, v)
            == wrong_kind_text(v, "metal.Buffer"@),
        handle_at(m, v) == Some((true, n)) ==> no_buffer_text(m, v) == not_held_text(v) && no_device_text(m, v)
            == wrong_kind_text(v, "metal.Device"@),
        handle_at(m, v) is None ==> no_device_text(m, v) == wrong_kind_text(v, "metal.Device"@) && no_buffer_text(m, v)
            == wrong_kind_text(v, "metal.Buffer"@),
{
}

/// What a platform says of a misuse names the object: a device as a device, a buffer as a buffer,
/// and each by its number.
pub proof fn misuses_name_the_object(d: Id<Device>, b: Id<Buffer>, h: Handle, n: u64, length: nat, room: nat)
    ensures
        handle_text(Handle::Device(d)) == "Device(#"@ + decimal(d@ as nat) + ")"@,
        handle_text(Handle::Buffer(b)) == "Buffer(#"@ + decimal(b@ as nat) + ")"@,
        handle_text(Handle::Device(d)) != handle_text(Handle::Buffer(b)),
        made_twice_text(h) == "the VM named two objects "@ + handle_text(h),
        not_kept_text(h) == handle_text(h) + ", which Metal does not hold for the VM"@,
        wrong_room_text(n, length, room) == "#"@ + decimal(n as nat) + " holds "@ + decimal(length)
            + " bytes, and the VM made room for "@ + decimal(room),
        read_as_text(n, room as int, length as int) == "#"@ + decimal(n as nat) + " read as "@ + decimal(room)
            + " bytes, where it holds "@ + decimal(length),
        on_no_device(n) == "a buffer on #"@ + decimal(n as nat) + ", which it does not hold"@,
        bad_read(n, room) == "a read of #"@ + decimal(n as nat) + " into "@ + decimal(room) + " bytes"@,
{
    reveal_strlit("Device(#");
    reveal_strlit("Buffer(#");
    assert(handle_text(Handle::Device(d))[0] == 'D');
    assert(handle_text(Handle::Buffer(b))[0] == 'B');
}

} // verus!
