//! What a renderer works out for a frame: its slot in a ring, the size of the list of
//! chunks, the indices of quads, and how long its stages took.
use vstd::prelude::*;

verus! {

/// Frames that may be in flight at once.
pub const FRAMES_IN_FLIGHT: usize = 3;

/// A ring of slots, one for each frame in flight, and the number of the next frame.
pub struct FrameRing {
    pub slot_bytes: usize,
    pub frame: usize,
}

impl FrameRing {
    /// The slots fit the address space.
    pub open spec fn wf(&self) -> bool {
        self.slot_bytes * 3 <= usize::MAX
    }

    /// A ring whose next frame is the first.
    pub fn new(slot_bytes: usize) -> (ring: FrameRing)
        requires
            slot_bytes * 3 <= usize::MAX,
        ensures
            ring.wf(),
            ring.slot_bytes == slot_bytes,
            ring.frame == 0,
    {
        FrameRing { slot_bytes, frame: 0 }
    }

    /// Where the next frame's slot begins; the frame after it is then the next.
    pub fn advance(&mut self) -> (at: usize)
        requires
            old(self).wf(),
            old(self).frame < usize::MAX,
        ensures
            final(self).wf(),
            final(self).slot_bytes == old(self).slot_bytes,
            final(self).frame == old(self).frame + 1,
            at == (old(self).frame % 3) * old(self).slot_bytes,
    {
        let slot = self.frame % FRAMES_IN_FLIGHT;
        assert(slot * self.slot_bytes <= self.slot_bytes * 3) by (nonlinear_arith)
            requires
                slot <= 3,
        ;
        self.frame = self.frame + 1;
        slot * self.slot_bytes
    }

    /// Where the slot of the last frame begins.
    pub fn last(&self) -> (at: usize)
        requires
            self.wf(),
            self.frame <= usize::MAX - 3,
        ensures
            at == ((self.frame + 2) % 3) * self.slot_bytes,
    {
        let slot = (self.frame + FRAMES_IN_FLIGHT - 1) % FRAMES_IN_FLIGHT;
        assert(slot * self.slot_bytes <= self.slot_bytes * 3) by (nonlinear_arith)
            requires
                slot <= 3,
        ;
        slot * self.slot_bytes
    }
}

/// The last frame's slot is where its frame was told to be.
pub proof fn last_is_what_was_given(frame: int, slot_bytes: int)
    requires
        0 <= frame,
    ensures
        ((frame + 1 + 2) % 3) * slot_bytes == (frame % 3) * slot_bytes,
{
    assert((frame + 1 + 2) % 3 == frame % 3);
}

/// The corner of a quad that each of its six indices names.
pub open spec fn quad_corner(i: int) -> int {
    if i == 0 {
        0
    } else if i == 1 || i == 4 {
        1
    } else if i == 2 || i == 3 {
        2
    } else {
        3
    }
}

/// The indices of 4096 quads of four vertices each, as two triangles.
pub fn quad_indices() -> (out: Vec<u16>)
    ensures
        out@ == Seq::new(24576, |i: int| (i / 6 * 4 + quad_corner(i % 6)) as u16),
{
    let mut out: Vec<u16> = Vec::new();
    let mut f: u16 = 0;
    while f < 4096
        invariant
            f <= 4096,
            out@ == Seq::new((f * 6) as nat, |i: int| (i / 6 * 4 + quad_corner(i % 6)) as u16),
        decreases 4096 - f,
    {
        let v = f * 4;
        out.push(v);
        out.push(v + 1);
        out.push(v + 2);
        out.push(v + 2);
        out.push(v + 1);
        out.push(v + 3);
        assert(out@ =~= Seq::new((f * 6 + 6) as nat, |i: int| (i / 6 * 4 + quad_corner(i % 6)) as u16));
        f += 1;
    }
    out
}

/// The chunks of `size` faces that a run of `n` faces takes.
pub open spec fn chunks_of(n: int, size: int) -> int {
    (n + size - 1) / size
}

/// The chunks that some runs take.
pub open spec fn all_chunks(runs: Seq<int>, size: int) -> int
    decreases runs.len(),
{
    if runs.len() == 0 {
        0
    } else {
        all_chunks(runs.drop_last(), size) + chunks_of(runs.last(), size)
    }
}

/// The faces of some runs.
pub open spec fn run_faces(runs: Seq<int>) -> int
    decreases runs.len(),
{
    if runs.len() == 0 {
        0
    } else {
        run_faces(runs.drop_last()) + runs.last()
    }
}

/// The room for chunks: the faces divided by the smallest chunk of `2^shift`, and one
/// more for each direction of each section.
pub open spec fn room_for_chunks(faces: int, sections: int, smallest: int) -> int {
    faces / smallest + sections * 6
}

/// The room for chunks of at least 4 faces, of which a section has six runs.
pub fn chunk_capacity(faces: usize, sections: usize) -> (n: usize)
    requires
        room_for_chunks(faces as int, sections as int, 4) <= usize::MAX,
    ensures
        n == room_for_chunks(faces as int, sections as int, 4),
{
    faces / 4 + sections * 6
}

/// The room for chunks of 16 faces, of which a section has six runs.
pub fn chunk16_capacity(faces: usize, sections: usize) -> (n: usize)
    requires
        room_for_chunks(faces as int, sections as int, 16) <= usize::MAX,
    ensures
        n == room_for_chunks(faces as int, sections as int, 16),
{
    faces / 16 + sections * 6
}

/// A run of `n` faces fills chunks with all of its faces but for those of the last.
proof fn chunks_bound(n: int, size: int)
    requires
        0 <= n,
        0 < size,
    ensures
        size * chunks_of(n, size) <= n + size - 1,
{
    vstd::arithmetic::div_mod::lemma_fundamental_div_mod(n + size - 1, size);
}

proof fn all_chunks_bound(runs: Seq<int>, size: int)
    requires
        0 < size,
        forall|i: int| 0 <= i < runs.len() ==> 0 <= #[trigger] runs[i],
    ensures
        0 <= run_faces(runs),
        size * all_chunks(runs, size) <= run_faces(runs) + (size - 1) * runs.len(),
    decreases runs.len(),
{
    if runs.len() > 0 {
        let before = runs.drop_last();
        assert forall|i: int| 0 <= i < before.len() implies 0 <= #[trigger] before[i] by {
            assert(before[i] == runs[i]);
        }
        all_chunks_bound(before, size);
        assert(0 <= runs[runs.len() - 1]);
        chunks_bound(runs.last(), size);
        let (a, b, n) = (all_chunks(before, size), chunks_of(runs.last(), size), before.len());
        assert(size * (a + b) == size * a + size * b) by (nonlinear_arith);
        assert((size - 1) * (n + 1) == (size - 1) * n + (size - 1)) by (nonlinear_arith);
    } else {
        assert(size * 0 == 0) by (nonlinear_arith);
        assert((size - 1) * 0 == 0) by (nonlinear_arith);
    }
}

/// The list of chunks has room for every run, each in chunks of `size` faces, the
/// smallest or larger: a run wastes at most one partial chunk.
pub proof fn chunks_have_room(runs: Seq<int>, faces: int, sections: int, smallest: int, size: int)
    requires
        0 < smallest <= size,
        forall|i: int| 0 <= i < runs.len() ==> 0 <= #[trigger] runs[i],
        runs.len() <= sections * 6,
        run_faces(runs) <= faces,
    ensures
        all_chunks(runs, size) <= room_for_chunks(faces, sections, smallest),
{
    all_chunks_bound(runs, size);
    let (c, n, q) = (all_chunks(runs, size), runs.len() as int, faces / size);
    vstd::arithmetic::div_mod::lemma_fundamental_div_mod(faces, size);
    assert(c <= q + n) by (nonlinear_arith)
        requires
            0 < size,
            0 <= n,
            size * c <= faces + (size - 1) * n,
            faces == size * q + faces % size,
            0 <= faces % size < size,
    ;
    vstd::arithmetic::div_mod::lemma_div_is_ordered_by_denominator(faces, smallest, size);
}

/// Eight bytes as a number, the lowest first.
pub open spec fn le64(bytes: Seq<u8>) -> int
    decreases bytes.len(),
{
    if bytes.len() == 0 {
        0
    } else {
        bytes[0] + 256 * le64(bytes.drop_first())
    }
}

/// The `k`th timestamp of some bytes.
pub open spec fn timestamp(bytes: Seq<u8>, k: int) -> int {
    le64(bytes.subrange(8 * k, 8 * k + 8))
}

/// A timestamp was taken.
pub open spec fn was_taken(t: int) -> bool {
    t != 0 && t != u64::MAX
}

/// The ticks from one timestamp to another, or 0 where they are out of order.
pub open spec fn ticks(bytes: Seq<u8>, a: int, b: int) -> int {
    let n = timestamp(bytes, b) - timestamp(bytes, a);
    if n < 0 {
        0
    } else {
        n
    }
}

/// The `k`th timestamp of some bytes.
fn read_timestamp(bytes: &Vec<u8>, k: usize) -> (t: u64)
    requires
        8 * k + 8 <= bytes@.len(),
    ensures
        t == timestamp(bytes@, k as int),
{
    assert(8 * k + 8 <= bytes.len());
    let at = 8 * k;
    let ghost part = bytes@.subrange(at as int, at + 8);
    let mut t: u64 = 0;
    let mut i: usize = 8;
    assert(part.skip(8) =~= Seq::empty());
    while i > 0
        invariant
            i <= 8,
            at + 8 <= bytes@.len(),
            part == bytes@.subrange(at as int, at + 8),
            t == le64(part.skip(i as int)),
            i == 8 ==> t == 0,
            i == 7 ==> t < 0x100,
            i == 6 ==> t < 0x1_0000,
            i == 5 ==> t < 0x100_0000,
            i == 4 ==> t < 0x1_0000_0000,
            i == 3 ==> t < 0x100_0000_0000,
            i == 2 ==> t < 0x1_0000_0000_0000,
            i == 1 ==> t < 0x100_0000_0000_0000,
        decreases i,
    {
        i -= 1;
        assert(part.skip(i as int).drop_first() =~= part.skip(i + 1));
        assert(at + i < bytes.len());
        t = bytes[at + i] as u64 + 256 * t;
    }
    assert(part.skip(0) =~= part);
    t
}

/// The ticks between the timestamps of a frame: over its culling, its vertices, its
/// fragments, and from the first to the last. `None` where a timestamp was not taken.
pub fn stage_ticks(bytes: &Vec<u8>) -> (out: Option<[u64; 4]>)
    requires
        bytes@.len() == 48,
    ensures
        out is Some <==> forall|k: int| 0 <= k < 6 ==> was_taken(#[trigger] timestamp(bytes@, k)),
        match out {
            Some(t) => t[0] == ticks(bytes@, 0, 1) && t[1] == ticks(bytes@, 2, 3) && t[2] == ticks(bytes@, 4, 5) && t[3]
                == ticks(bytes@, 0, 5),
            None => true,
        },
{
    let mut t: Vec<u64> = Vec::new();
    let mut k: usize = 0;
    while k < 6
        invariant
            k <= 6,
            bytes@.len() == 48,
            t@.len() == k,
            forall|j: int| 0 <= j < k ==> t@[j] == #[trigger] timestamp(bytes@, j) && was_taken(timestamp(bytes@, j)),
        decreases 6 - k,
    {
        let v = read_timestamp(bytes, k);
        if v == 0 || v == u64::MAX {
            assert(!was_taken(timestamp(bytes@, k as int)));
            return None;
        }
        t.push(v);
        k += 1;
    }
    proof {
        assert(t@[0] == timestamp(bytes@, 0) && t@[1] == timestamp(bytes@, 1) && t@[2] == timestamp(bytes@, 2));
        assert(t@[3] == timestamp(bytes@, 3) && t@[4] == timestamp(bytes@, 4) && t@[5] == timestamp(bytes@, 5));
    }
    Some([apart(t[0], t[1]), apart(t[2], t[3]), apart(t[4], t[5]), apart(t[0], t[5])])
}

fn apart(a: u64, b: u64) -> (n: u64)
    ensures
        n == (if b < a {
            0
        } else {
            b - a
        }),
{
    if b < a {
        0
    } else {
        b - a
    }
}

} // verus!
