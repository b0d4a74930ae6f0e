use scarlet::core_ir::{TypeId, Variant};
use scarlet::host::host;
use scarlet::vm::binary::{bits, bytes};
use scarlet::vm::fake::Fake;
use scarlet::vm::heap::{Heap, Kind};
use scarlet::vm::id::{Buffer, Device, Handle, Id};
use scarlet::vm::making::{make, slice};
use scarlet::vm::metal::{Answer, Machine, MetalError, MetalTypes, Stop};
use scarlet::vm::objects::Objects;
use scarlet::vm::platform::{
    BufferBytes, BufferError, DeviceError, DeviceInfo, Fault, Fits, Gpu, OutOfIds, Platform, ReadInto, Unfit,
};
use scarlet::vm::value::{Cell, Value};

const METAL: TypeId = TypeId(31);

fn variant(tag: u32) -> Variant {
    Variant { type_id: METAL, tag }
}

fn types() -> MetalTypes {
    MetalTypes {
        unsupported: variant(0),
        no_device: variant(1),
        empty_buffer: variant(2),
        unaligned_binary: variant(3),
        too_large: variant(4),
        out_of_memory: variant(5),
    }
}

fn machine(platform: Option<Fake>) -> Machine<Fake> {
    Machine::new(host(Vec::new(), platform).gpu, Some(types()))
}

fn cell(v: Value) -> Cell {
    v.as_cell().expect("a cell")
}

/// What the program would print of an answer.
fn shown<P: Platform>(m: &Machine<P>, a: Answer) -> String {
    let name = |tag: u32| ["Unsupported", "NoDevice", "EmptyBuffer", "UnalignedBinary", "TooLarge", "OutOfMemory"][tag as usize];
    match a {
        Ok(v) => match m.heap.handle_of(cell(v)) {
            Some(Handle::Device(id)) => format!("Ok(<metal.Device #{}>)", id.raw()),
            Some(Handle::Buffer(id)) => format!("Ok(<metal.Buffer #{}>)", id.raw()),
            None => panic!("no handle"),
        },
        Err(Value::Nullary(v)) => format!("Err({})", name(v.tag)),
        Err(Value::Held(c)) => {
            let d = m.heap.data(c);
            assert_eq!(d[0], METAL.0 as u64);
            format!("Err({}({}))", name(d[1] as u32), d[2])
        },
        Err(_) => panic!("no error"),
    }
}

fn drop_value<P: Platform>(m: &mut Machine<P>, v: Value) {
    if let Some(c) = v.as_cell() {
        m.heap.release(c);
    }
}

fn drop_answer<P: Platform>(m: &mut Machine<P>, a: Answer) {
    match a {
        Ok(v) => drop_value(m, v),
        Err(v) => drop_value(m, v),
    }
}

fn binary<P: Platform>(m: &mut Machine<P>, list: &[u8], len: u64) -> Value {
    Value::cell(make(&mut m.heap, list, len).expect("room"))
}

/// A device, and then a buffer on it.
fn on_device<P: Platform>(m: &mut Machine<P>, list: &[u8], len: u64) -> Result<Answer, Stop> {
    let device = match m.metal_device()? {
        Ok(d) => d,
        Err(e) => return Ok(Err(e)),
    };
    let b = binary(m, list, len);
    let made = m.metal_buffer(device, b);
    drop_value(m, b);
    drop_value(m, device);
    made
}

/// Every error the VM makes, once.
const ALL: [MetalError; 6] = [
    MetalError::Unsupported,
    MetalError::NoDevice,
    MetalError::EmptyBuffer,
    MetalError::UnalignedBinary,
    MetalError::TooLarge { max_bytes: 16 },
    MetalError::OutOfMemory,
];

#[test]
fn every_metal_error_has_a_program_that_makes_it() {
    for e in ALL {
        let (platform, call, want): (Option<Fake>, Option<(&[u8], u64)>, String) = match e {
            MetalError::Unsupported => (None, None, "Unsupported".to_string()),
            MetalError::NoDevice => (Some(Fake::new().without_device()), None, "NoDevice".to_string()),
            MetalError::EmptyBuffer => (Some(Fake::new()), Some((&[], 0)), "EmptyBuffer".to_string()),
            MetalError::UnalignedBinary => (Some(Fake::new()), Some((&[1, 0x20], 12)), "UnalignedBinary".to_string()),
            MetalError::TooLarge { max_bytes } => (
                Some(Fake::new().with_max_buffer_bytes(max_bytes)),
                Some((b"seventeen bytes!!", 17 * 8)),
                format!("TooLarge({max_bytes})"),
            ),
            MetalError::OutOfMemory => (Some(Fake::new().out_of_memory()), Some((&[1], 8)), "OutOfMemory".to_string()),
        };
        let mut m = machine(platform);
        let r = match call {
            None => m.metal_device(),
            Some((list, len)) => on_device(&mut m, list, len),
        };
        let a = r.expect("an answer");
        assert_eq!(shown(&m, a), format!("Err({want})"), "{e:?}");
        drop_answer(&mut m, a);
        m.release_freed();
        assert_eq!(m.heap.live(), 0, "{e:?}");
        assert_eq!(m.handles.live(), 0, "{e:?}");
        if let Some(gpu) = m.end() {
            assert_eq!(gpu.platform.held(), 0, "{e:?}");
            assert!(gpu.platform.wrong().is_empty(), "{:?}", gpu.platform.wrong());
        }
    }
}

/// A handle of the wrong kind, or one the run no longer holds, never
/// reaches the platform: the types make both impossible, so reaching
/// either is a bug in the compiler or the VM, and says so.
#[test]
fn a_handle_of_the_wrong_kind_or_not_held_is_a_bad_program() {
    let mut m = machine(Some(Fake::new()));
    let device: Id<Device> = m.gpu.as_mut().expect("a GPU").next().expect("an id");
    let info = DeviceInfo::new("a device".to_string(), 16);
    let v = Value::cell(m.heap.handle(Handle::Device(device)).expect("room"));
    assert!(matches!(m.metal_name(v), Err(Stop::BadProgram(_))), "a device the run does not hold");
    m.handles.devices.insert(device.raw(), info);
    let name = m.metal_name(v).expect("a name");
    assert_eq!(m.heap.kind(cell(name)), Some(Kind::String));
    drop_value(&mut m, name);
    assert!(matches!(m.metal_byte_size(v), Err(Stop::BadProgram(_))), "a device where a buffer goes");
    assert!(matches!(m.metal_read(v), Err(Stop::BadProgram(_))), "a device where a buffer goes");
    assert!(matches!(m.metal_name(Value::Nil), Err(Stop::BadProgram(_))), "Nil where a device goes");
    assert!(matches!(m.metal_buffer(Value::Nil, Value::Nil), Err(Stop::BadProgram(_))));
    m.handles.devices.clear();
    drop_value(&mut m, v);
}

/// A handle cell is freed like any other: none is left in the heap, and
/// the fake finds nothing held.
#[test]
fn handle_cells_are_all_freed() {
    let mut m = machine(Some(Fake::new()));
    let a = on_device(&mut m, &[1, 2], 16).expect("no stop");
    assert_eq!(shown(&m, a), "Ok(<metal.Buffer #2>)");
    drop_answer(&mut m, a);
    assert_eq!(m.heap.live(), 0);
    assert_eq!(m.live_handles(), Value::Int(0));
    let gpu = m.end().expect("the GPU");
    assert_eq!(gpu.platform.held(), 0);
    assert!(gpu.platform.wrong().is_empty());
}

/// What the run still holds at its end is let go of then.
#[test]
fn the_end_of_a_run_lets_go_of_all_it_holds() {
    let mut m = machine(Some(Fake::new()));
    on_device(&mut m, &[1, 2], 16).expect("no stop").expect("a buffer");
    m.metal_device().expect("no stop").expect("a device");
    assert_eq!(m.live_handles(), Value::Int(2));
    let gpu = m.end().expect("the GPU");
    assert_eq!(gpu.platform.held(), 0);
    assert!(gpu.platform.wrong().is_empty());
}

/// A platform that has no GPU API to open says so through the same
/// value as a host with no platform at all.
#[test]
fn a_platform_with_no_gpu_api_is_unsupported() {
    let mut m = machine(Some(Fake::new().without_gpu_api()));
    let a = m.metal_device().expect("no stop");
    assert_eq!(shown(&m, a), "Err(Unsupported)");
}

/// A platform that reads fewer bytes than the buffer holds is refused,
/// rather than leaving the rest of the new binary holding what its cell
/// held before.
struct Short(Fake);

impl Platform for Short {
    fn device(&mut self, device: Id<Device>) -> Result<DeviceInfo, DeviceError> {
        self.0.device(device)
    }

    fn buffer(&mut self, buffer: Id<Buffer>, bytes: BufferBytes<'_>) -> Result<(), BufferError> {
        self.0.buffer(buffer, bytes)
    }

    fn read(&mut self, to: ReadInto) -> Result<Vec<u8>, Fault> {
        to.copy_from(&[1])
    }

    fn release(&mut self, handle: Handle) {
        self.0.release(handle);
    }
}

#[test]
fn a_short_read_is_refused() {
    let mut m = Machine::new(Some(Gpu::new(Short(Fake::new()))), Some(types()));
    let buffer = on_device(&mut m, &[1, 2, 3], 24).expect("no stop").expect("a buffer");
    let live = m.heap.live();
    match m.metal_read(buffer) {
        Err(Stop::PlatformFault(why)) => assert_eq!(why, "#2 read as 1 bytes, where it holds 3"),
        other => panic!("{other:?}"),
    }
    assert_eq!(m.heap.live(), live);
}

/// A buffer refused copies nothing, and counts no copy, even from a
/// binary that starts mid-byte, which one made would have been copied
/// from.
#[test]
fn a_buffer_refused_stages_nothing() {
    let mut m = machine(Some(Fake::new().with_max_buffer_bytes(16)));
    let device = m.metal_device().expect("no stop").expect("a device");
    let text = b"twenty bytes, or so";
    let whole = make(&mut m.heap, text, text.len() as u64 * 8).expect("room");
    let mut out = Vec::new();
    for (from, len) in [(4, 17 * 8), (4, 0), (4, 12), (4, 16 * 8)] {
        let b = bits(&m.heap, whole).expect("a binary");
        let part = slice(&mut m.heap, b, from, len).expect("room");
        let before = m.staged;
        let made = m.metal_buffer(device, Value::cell(part)).expect("no stop");
        out.push(format!("{} {}", m.staged - before, shown(&m, made)));
    }
    assert_eq!(out, vec!["0 Err(TooLarge(16))", "0 Err(EmptyBuffer)", "0 Err(UnalignedBinary)", "16 Ok(<metal.Buffer #2>)"]);
}

/// Ids come from a counter with the platform, and when it has given out
/// every one it can, the run stops saying so, never reusing one.
#[test]
fn ids_running_out_stops_the_run() {
    let mut m = Machine::new(Some(Gpu::after(Fake::new(), u64::MAX - 1)), Some(types()));
    let a = m.metal_device().expect("no stop");
    assert_eq!(shown(&m, a), format!("Ok(<metal.Device #{}>)", u64::MAX));
    assert!(matches!(m.metal_device(), Err(Stop::OutOfIds)));
}

#[test]
fn ids_are_given_out_once_each() {
    let mut gpu = Gpu::new(Fake::new());
    let a: Id<Device> = gpu.next().expect("an id");
    let b: Id<Buffer> = gpu.next().expect("an id");
    assert_eq!((a.raw(), b.raw()), (1, 2));
    let mut last = Gpu::after(Fake::new(), u64::MAX);
    assert!(matches!(last.next::<Device>(), Err(OutOfIds)));
    assert!(matches!(last.next::<Device>(), Err(OutOfIds)));
}

#[test]
fn a_read_gives_back_what_was_put_in() {
    let mut m = machine(Some(Fake::new()));
    let data: Vec<u8> = (0..100).collect();
    let buffer = on_device(&mut m, &data, 800).expect("no stop").expect("a buffer");
    assert_eq!(m.metal_byte_size(buffer).expect("a size"), Value::Int(100));
    let got = m.metal_read(buffer).expect("no stop").expect("bytes");
    let b = bits(&m.heap, cell(got)).expect("a binary");
    assert_eq!(bytes(&m.heap, b), data);
}

#[test]
fn a_program_without_the_error_type_is_a_bad_program() {
    let mut m: Machine<Fake> = Machine::new(None, None);
    match m.metal_device() {
        Err(Stop::BadProgram(why)) => {
            assert_eq!(why, "a Metal built-in, in a program with no `scarlet/metal.MetalError`");
        },
        other => panic!("{other:?}"),
    }
}

#[test]
fn what_a_platform_answers_is_told_to_the_program() {
    let mut m = machine(Some(Fake::new()));
    let lost = || Fault::new("the GPU was lost".to_string());
    match m.device_answered(Id::new(9), Err(DeviceError::Fault(lost()))) {
        Err(Stop::PlatformFault(why)) => assert_eq!(why, "the GPU was lost"),
        other => panic!("{other:?}"),
    }
    match m.buffer_answered(Id::new(9), 4, Err(BufferError::Fault(lost()))) {
        Err(Stop::PlatformFault(why)) => assert_eq!(why, "the GPU was lost"),
        other => panic!("{other:?}"),
    }
    let a = m.buffer_answered(Id::new(9), 4, Err(BufferError::OutOfMemory)).expect("no stop");
    assert_eq!(shown(&m, a), "Err(OutOfMemory)");
    let a = m.device_answered(Id::new(9), Err(DeviceError::NoDevice)).expect("no stop");
    assert_eq!(shown(&m, a), "Err(NoDevice)");
}

#[test]
fn bytes_fit_a_device_or_not() {
    let info = DeviceInfo::new("a device".to_string(), 16);
    let device: Id<Device> = Id::new(1);
    assert!(matches!(Fits::check(device, &info, 0), Err(Unfit::Empty)));
    assert!(matches!(Fits::check(device, &info, 17), Err(Unfit::TooLarge(16))));
    let fits = Fits::check(device, &info, 16).expect("it fits");
    assert!(fits.bytes(&[0; 15]).is_none());
    assert_eq!(fits.bytes(&[7; 16]).expect("the length").bytes(), &[7; 16]);
    assert!(BufferBytes::check(device, &info, &[]).is_err());
    assert_eq!(BufferBytes::check(device, &info, &[1]).expect("it fits").device(), device);
}

#[test]
fn the_fake_writes_down_what_is_wrong() {
    let mut fake = Fake::new();
    let device: Id<Device> = Id::new(1);
    let info = fake.make_device(device).expect("a device");
    assert!(fake.make_device(device).is_err());
    assert_eq!(fake.held(), 1);
    let bytes = BufferBytes::check(Id::new(5), &info, &[1]).expect("it fits");
    assert!(fake.make_buffer(Id::new(2), bytes).is_err());
    fake.let_go(Handle::Device(device));
    fake.let_go(Handle::Device(device));
    assert_eq!(fake.held(), 0);
    assert!(fake.wrong().len() >= 2, "{:?}", fake.wrong());
}

#[test]
fn objects_are_kept_under_their_ids() {
    let mut o = Objects::new();
    o.keep_device(Id::new(1)).expect("kept");
    assert_eq!(o.keep_device(Id::new(1)).unwrap_err().0, "the VM named two objects Device(#1)");
    o.keep_buffer(Id::new(2), 8).expect("kept");
    assert!(o.find_device(Id::new(1)).is_ok());
    assert!(o.find_buffer(Id::new(2), 8).is_ok());
    assert_eq!(
        o.find_buffer(Id::new(2), 9).unwrap_err().0,
        "#2 holds 8 bytes, and the VM made room for 9"
    );
    assert_eq!(
        o.find_device(Id::new(7)).unwrap_err().0,
        "Device(#7), which Metal does not hold for the VM"
    );
    assert_eq!(o.held(), 2);
    o.let_go(Handle::Buffer(Id::new(2)));
    assert_eq!(o.held(), 1);
}

#[test]
fn a_freed_handle_waits_to_be_released() {
    let mut heap = Heap::new();
    let h = Handle::Device(Id::new(3));
    let c = heap.handle(h).expect("room");
    heap.share(c);
    heap.release(c);
    assert!(heap.freed_handles().is_empty());
    heap.release(c);
    let freed = heap.freed_handles();
    assert_eq!(freed.len(), 1);
    assert!(matches!(&freed[0], Handle::Device(id) if id.raw() == 3));
    assert!(heap.freed_handles().is_empty());
}

#[test]
fn reads_give_back_what_was_put_in_whatever_came_between() {
    let mut m = machine(Some(Fake::new()));
    let x = on_device(&mut m, &[1, 2, 3], 24).expect("no stop").expect("a buffer");
    m.metal_device().expect("no stop").expect("a device");
    let y = on_device(&mut m, &[9, 8], 16).expect("no stop").expect("a buffer");
    let dropped = on_device(&mut m, &[7], 8).expect("no stop");
    drop_answer(&mut m, dropped);
    m.release_freed();
    let read = |m: &mut Machine<Fake>, v: Value| {
        let got = m.metal_read(v).expect("no stop").expect("bytes");
        let b = bits(&m.heap, cell(got)).expect("a binary");
        bytes(&m.heap, b)
    };
    assert_eq!(read(&mut m, x), vec![1, 2, 3]);
    assert_eq!(read(&mut m, y), vec![9, 8]);
    assert_eq!(read(&mut m, x), vec![1, 2, 3]);
}

#[test]
fn a_refused_buffer_takes_no_id() {
    let mut m = machine(Some(Fake::new().with_max_buffer_bytes(4)));
    let device = m.metal_device().expect("no stop").expect("a device");
    for (list, len) in [(&[][..], 0), (&[1, 0x20][..], 12), (&[1, 2, 3, 4, 5][..], 40)] {
        let b = binary(&mut m, list, len);
        assert!(m.metal_buffer(device, b).expect("no stop").is_err());
        assert_eq!(m.staged, 0);
    }
    let b = binary(&mut m, &[1, 2, 3, 4], 32);
    let made = m.metal_buffer(device, b).expect("no stop");
    assert_eq!(shown(&m, made), "Ok(<metal.Buffer #2>)");
}

#[test]
fn a_read_is_counted_where_bytes_do_not_lie_in_place() {
    for (in_place, staged) in [(true, 0), (false, 4)] {
        let mut m = machine(Some(Fake::new()));
        let begun = m.heap.make(Kind::Binary, vec![32, 0]).expect("room");
        let a = m.read_answered(begun, 4, Ok(vec![1, 2, 3, 4]), in_place).expect("no stop").expect("bytes");
        let b = bits(&m.heap, cell(a)).expect("a binary");
        assert_eq!(bytes(&m.heap, b), vec![1, 2, 3, 4]);
        assert_eq!(m.staged, staged);
    }
}

/// A platform that writes down what it lets go of.
struct Logged(Fake, Vec<Handle>);

impl Platform for Logged {
    fn device(&mut self, device: Id<Device>) -> Result<DeviceInfo, DeviceError> {
        self.0.device(device)
    }

    fn buffer(&mut self, buffer: Id<Buffer>, bytes: BufferBytes<'_>) -> Result<(), BufferError> {
        self.0.buffer(buffer, bytes)
    }

    fn read(&mut self, to: ReadInto) -> Result<Vec<u8>, Fault> {
        self.0.read(to)
    }

    fn release(&mut self, handle: Handle) {
        self.1.push(handle);
        self.0.release(handle);
    }
}

/// What was freed goes first, and then buffers before devices, each in the order made.
#[test]
fn the_end_of_a_run_lets_go_in_order() {
    let mut m = Machine::new(Some(Gpu::new(Logged(Fake::new(), Vec::new()))), Some(types()));
    let first = m.metal_device().expect("no stop").expect("a device");
    let b = binary(&mut m, &[1], 8);
    m.metal_buffer(first, b).expect("no stop").expect("a buffer");
    m.metal_device().expect("no stop").expect("a device");
    m.metal_buffer(first, b).expect("no stop").expect("a buffer");
    let freed = m.metal_device().expect("no stop");
    drop_answer(&mut m, freed);
    let platform = m.end().expect("the GPU").platform;
    let device = |n: u64| Handle::Device(Id::new(n));
    let buffer = |n: u64| Handle::Buffer(Id::new(n));
    assert_eq!(platform.1, vec![device(5), buffer(2), buffer(4), device(1), device(3)]);
    assert_eq!(platform.0.held(), 0);
}
