//! The bookkeeping of a mesher: how its face buffer is divided, and what it reads back.
use vstd::prelude::*;

use crate::lighting::mesher::{blocks_of, section_is_stored};
use crate::lighting::world::numbers_below;
use crate::meshing::cpu_mesh::{face_order, sort_faces};
use crate::meshing::face::Face;
use crate::meshing::gpu_types::{AllocState, MeshParams, SectionMesh, MAX_FACES, NONE, NUM_CLASSES};
use crate::meshing::world::World;
use crate::voxel::slots::{stack_bases, stack_entries};
use crate::voxel::sorted::ordered;

verus! {

/// How a section's slot in the face buffer is found.
#[derive(Clone, Copy, Debug, PartialEq, Eq, Structural)]
pub enum AllocMode {
    /// A bump pointer, and slots of the exact size. Densest after a full mesh; meshing
    /// again leaks the old slot.
    Exact,
    /// Powers of two from 64 faces, with a stack of free slots for each.
    Classes,
    /// A slot for the worst case for each section.
    Worst,
}

impl AllocMode {
    /// The number that shaders know the mode by.
    pub open spec fn number(self) -> u32 {
        match self {
            AllocMode::Exact => 0,
            AllocMode::Classes => 1,
            AllocMode::Worst => 2,
        }
    }

    /// The number that shaders know the mode by.
    pub fn code(self) -> (n: u32)
        ensures
            n == self.number(),
    {
        match self {
            AllocMode::Exact => 0,
            AllocMode::Classes => 1,
            AllocMode::Worst => 2,
        }
    }
}

/// Whether faces are merged.
#[derive(Clone, Copy, Debug, PartialEq, Eq, Structural)]
pub enum Meshing {
    Plain,
    Greedy,
}

impl Meshing {
    /// The name of the kernel that meshes so.
    pub fn kernel(self) -> (name: &'static str)
        ensures
            name@ == (match self {
                Meshing::Plain => "mesh_sections"@,
                Meshing::Greedy => "mesh_sections_greedy"@,
            }),
    {
        match self {
            Meshing::Plain => "mesh_sections",
            Meshing::Greedy => "mesh_sections_greedy",
        }
    }
}

/// What a mesher holds after a dispatch.
#[derive(Clone, Copy, Debug, PartialEq, Eq)]
pub struct AllocStats {
    pub live_faces: u64,
    pub live_capacity: u64,
    pub bump: u64,
    pub overflow: u32,
    pub free_entries: u64,
}

/// A meshing pass: what it is told, and the groups of 256 threads that release slots and that
/// mesh. There is no dispatch of no groups.
#[derive(Clone, Copy, Debug)]
pub struct MeshPass {
    pub params: MeshParams,
    pub release_groups: usize,
    pub mesh_groups: usize,
}

/// A fill of bytes of the sections' meshes, or else of the allocator.
#[derive(Clone, Copy, Debug, PartialEq, Eq, Structural)]
pub struct Fill {
    pub meshes: bool,
    pub at: usize,
    pub len: usize,
    pub byte: u8,
}

/// The fill that says of section `s` that it has no place for faces.
pub open spec fn no_place(s: int) -> Fill {
    Fill { meshes: true, at: (32 * s) as usize, len: 4, byte: 0xFF }
}

/// The fills that forget every allocation.
pub open spec fn reset_fills(sections: int) -> Seq<Fill> {
    seq![Fill { meshes: true, at: 0, len: (sections * 32) as usize, byte: 0 }] + Seq::new(
        sections as nat,
        |s: int| no_place(s),
    ) + seq![Fill { meshes: false, at: 0, len: 12, byte: 0 }, Fill { meshes: false, at: 16, len: 40, byte: 0 }]
}

/// An allocator as the words that it is stored as.
pub open spec fn alloc_words(a: AllocState) -> Seq<u32> {
    seq![a.bump, a.overflow, a.retired, a.capacity] + Seq::new(10, |c: int| a.free_top[c] as u32) + a.free_base@ + a.pad@
}

/// A section's mesh as the words that it is stored as.
pub open spec fn mesh_words(m: SectionMesh) -> Seq<u32> {
    seq![m.offset, m.capacity] + m.count@
}

/// The sections' meshes as the words that they are stored as, eight for each.
pub open spec fn meshes_words(meshes: Seq<SectionMesh>) -> Seq<u32> {
    Seq::new(8 * meshes.len(), |i: int| mesh_words(meshes[i / 8])[i % 8])
}

/// Words after a fill of whole words, each of four times the byte.
pub open spec fn filled(words: Seq<u32>, f: Fill) -> Seq<u32> {
    Seq::new(
        words.len(),
        |i: int|
            if f.at <= 4 * i < f.at + f.len {
                (f.byte * 0x0101_0101) as u32
            } else {
                words[i]
            },
    )
}

/// The words of the meshes, or else of the allocator, after those of some fills that are of them.
pub open spec fn after_fills(words: Seq<u32>, fills: Seq<Fill>, meshes: bool) -> Seq<u32>
    decreases fills.len(),
{
    if fills.len() == 0 {
        words
    } else {
        let before = after_fills(words, fills.drop_last(), meshes);
        if fills.last().meshes == meshes {
            filled(before, fills.last())
        } else {
            before
        }
    }
}

/// `b` is the allocator `a` with every allocation forgotten: its counters and the tops of its
/// stacks are none, and its room and the bases of its stacks are as they were.
pub open spec fn is_forgotten(a: AllocState, b: AllocState) -> bool {
    &&& b.bump == 0
    &&& b.overflow == 0
    &&& b.retired == 0
    &&& forall|c: int| 0 <= c < 10 ==> #[trigger] b.free_top[c] == 0
    &&& b.capacity == a.capacity
    &&& b.free_base == a.free_base
    &&& b.pad == a.pad
}

/// The words of the meshes after they are cleared and the first `n` of them have no place.
proof fn places_are_taken(words: Seq<u32>, sections: int, n: int)
    requires
        0 <= n <= sections,
        words.len() == 8 * sections,
        sections * 32 <= usize::MAX,
    ensures
        after_fills(words, reset_fills(sections).take(1 + n), true).len() == words.len(),
        forall|i: int|
            0 <= i < words.len() ==> #[trigger] after_fills(words, reset_fills(sections).take(1 + n), true)[i] == (if i % 8 == 0
                && i / 8 < n {
                u32::MAX
            } else {
                0u32
            }),
    decreases n,
{
    let fills = reset_fills(sections);
    let t = fills.take(1 + n);
    let out = after_fills(words, t, true);
    if n == 0 {
        reveal_with_fuel(after_fills, 2);
        assert(t.drop_last() =~= Seq::<Fill>::empty());
        assert(out == filled(words, fills[0]));
    } else {
        places_are_taken(words, sections, n - 1);
        assert(t.drop_last() =~= fills.take(n));
        assert(t.last() == no_place(n - 1));
        let before = after_fills(words, fills.take(n), true);
        assert(out == filled(before, no_place(n - 1)));
        assert forall|i: int| 0 <= i < words.len() implies #[trigger] out[i] == (if i % 8 == 0 && i / 8 < n {
            u32::MAX
        } else {
            0u32
        }) by {
            assert(before[i] == (if i % 8 == 0 && i / 8 < n - 1 {
                u32::MAX
            } else {
                0u32
            }));
        }
    }
}

/// Fills of the meshes leave the allocator as it is.
proof fn meshes_are_apart(words: Seq<u32>, sections: int, n: int)
    requires
        0 <= n <= sections + 1,
    ensures
        after_fills(words, reset_fills(sections).take(n), false) == words,
    decreases n,
{
    if n > 0 {
        let t = reset_fills(sections).take(n);
        meshes_are_apart(words, sections, n - 1);
        assert(t.drop_last() =~= reset_fills(sections).take(n - 1));
        assert(t.last().meshes);
    }
}

/// The fills do what forgetting every allocation does. Of the meshes, as many as there are
/// sections, every one is empty, and so can be read whatever the faces are. Of the allocator,
/// the counters and the tops of the stacks are none, and its room and the bases of its stacks are
/// as they were.
pub proof fn the_fills_reset(
    a: AllocState,
    b: AllocState,
    meshes: Seq<SectionMesh>,
    after: Seq<SectionMesh>,
    sections: int,
)
    requires
        meshes.len() == sections,
        after.len() == sections,
        sections * 32 <= usize::MAX,
        meshes_words(after) == after_fills(meshes_words(meshes), reset_fills(sections), true),
        alloc_words(b) == after_fills(alloc_words(a), reset_fills(sections), false),
    ensures
        forall|s: int| 0 <= s < sections ==> (#[trigger] after[s]).is_empty(),
        forall|s: int, faces: Seq<[u32; 2]>| 0 <= s < sections ==> #[trigger] is_sound(after[s], faces),
        is_forgotten(a, b),
{
    let fills = reset_fills(sections);
    let words = meshes_words(meshes);
    let all = sections + 1;
    let less = fills.drop_last();
    assert(less.drop_last() =~= fills.take(all));
    // The meshes.
    places_are_taken(words, sections, sections);
    let out = after_fills(words, fills, true);
    assert(!fills.last().meshes && !less.last().meshes);
    assert(out == after_fills(words, less, true));
    assert(out == after_fills(words, fills.take(all), true));
    assert forall|s: int| 0 <= s < sections implies (#[trigger] after[s]).is_empty() by {
        let m = after[s];
        assert(meshes_words(after)[8 * s] == mesh_words(m)[0]);
        assert(meshes_words(after)[8 * s + 1] == mesh_words(m)[1]);
        assert forall|d: int| 0 <= d < 6 implies #[trigger] m.count[d] == 0 by {
            let i = 8 * s + 2 + d;
            assert(i / 8 == s && i % 8 == 2 + d);
            assert(meshes_words(after)[i] == mesh_words(m)[2 + d]);
            assert(mesh_words(m)[2 + d] == m.count@[d]);
        }
        assert(m.count[0] == 0 && m.count[1] == 0 && m.count[2] == 0 && m.count[3] == 0 && m.count[4] == 0 && m.count[5]
            == 0);
    }
    // The allocator.
    let start = alloc_words(a);
    meshes_are_apart(start, sections, all);
    let mid = filled(start, less.last());
    assert(after_fills(start, less, false) == mid);
    let end = filled(mid, fills.last());
    assert(after_fills(start, fills, false) == end);
    let got = alloc_words(b);
    assert(got[0] == end[0] && got[1] == end[1] && got[2] == end[2] && got[3] == end[3]);
    assert forall|c: int| 0 <= c < 10 implies #[trigger] b.free_top[c] == 0 by {
        assert(got[4 + c] == b.free_top[c] as u32);
        assert(end[4 + c] == 0);
        let t = b.free_top[c];
        assert(t as u32 == 0 ==> t == 0) by (bit_vector);
    }
    assert(b.free_base@ =~= a.free_base@) by {
        assert forall|c: int| 0 <= c < 10 implies b.free_base@[c] == a.free_base@[c] by {
            assert(got[14 + c] == b.free_base@[c]);
            assert(end[14 + c] == a.free_base@[c]);
        }
    }
    assert(b.pad@ =~= a.pad@) by {
        assert forall|c: int| 0 <= c < 2 implies b.pad@[c] == a.pad@[c] by {
            assert(got[24 + c] == b.pad@[c]);
            assert(end[24 + c] == a.pad@[c]);
        }
    }
    assert(b.free_base =~= a.free_base);
    assert(b.pad =~= a.pad);
}

/// The sizes of a mesher's buffers, and how its allocator starts.
pub struct Mesher {
    pub section_count: usize,
    pub mode: AllocMode,
    pub meshing: Meshing,
    /// The face buffer's size in faces.
    pub face_capacity: usize,
    /// The entries of all stacks of free slots.
    pub free_entries: usize,
    pub alloc: AllocState,
}

/// The faces that the buffer holds: those asked for, or the worst case of each section.
pub open spec fn capacity_of(mode: AllocMode, sections: int, asked: int) -> int {
    if mode is Worst {
        sections * 24576
    } else {
        asked
    }
}

impl Mesher {
    /// A mesher of `world`. `face_capacity` is the face buffer's size in faces; the worst
    /// case mode takes as many as every section can need instead.
    pub fn new(world: &World, mode: AllocMode, meshing: Meshing, face_capacity: usize) -> (m: Mesher)
        requires
            world.wf(),
            capacity_of(mode, world.shape().sections(), face_capacity as int) <= u32::MAX,
        ensures
            m.section_count == world.shape().sections(),
            m.mode == mode,
            m.meshing == meshing,
            m.face_capacity == capacity_of(mode, world.shape().sections(), face_capacity as int),
            m.free_entries == stack_entries(m.face_capacity as int, 10),
            m.alloc.bump == 0,
            m.alloc.overflow == 0,
            m.alloc.retired == 0,
            m.alloc.capacity == m.face_capacity,
            forall|c: int| 0 <= c < 10 ==> #[trigger] m.alloc.free_top[c] == 0,
            forall|c: int| 0 <= c < 10 ==> #[trigger] m.alloc.free_base[c] == stack_entries(m.face_capacity as int, c),
            m.alloc.pad@ == seq![0u32, 0],
    {
        let n = world.section_count();
        let worst = match mode {
            AllocMode::Worst => true,
            _ => false,
        };
        let face_capacity = if worst {
            n * MAX_FACES as usize
        } else {
            face_capacity
        };
        let (free_base, free_entries) = stack_bases(face_capacity);
        let alloc = AllocState {
            bump: 0,
            overflow: 0,
            retired: 0,
            capacity: face_capacity as u32,
            free_top: [0; 10],
            free_base,
            pad: [0; 2],
        };
        assert(alloc.pad@ =~= seq![0u32, 0]);
        Mesher { section_count: n, mode, meshing, face_capacity, free_entries, alloc }
    }

    /// The bytes of the face buffer.
    pub fn face_buffer_bytes(&self) -> (n: usize)
        requires
            self.face_capacity * 8 <= usize::MAX,
        ensures
            n == self.face_capacity * 8,
    {
        self.face_capacity * 8
    }

    /// What a dispatch of `jobs` sections is told.
    pub fn params(&self, jobs: usize) -> (params: MeshParams)
        requires
            jobs <= self.section_count,
            jobs <= u32::MAX,
        ensures
            params.alloc_mode == self.mode.number(),
            params.job_count == jobs,
            params.pad@ == seq![0u32, 0],
    {
        let params = MeshParams { alloc_mode: self.mode.code(), job_count: jobs as u32, pad: [0; 2] };
        assert(params.pad@ =~= seq![0u32, 0]);
        params
    }

    /// What meshing some sections is told, and does: the slots that were given up are released
    /// first, and a group of threads meshes each section, where there is one.
    pub fn encode(&self, jobs: &Vec<u32>) -> (pass: MeshPass)
        requires
            jobs@.len() <= self.section_count,
            jobs@.len() <= u32::MAX,
        ensures
            pass.params.alloc_mode == self.mode.number(),
            pass.params.job_count == jobs@.len(),
            pass.params.pad@ == seq![0u32, 0],
            pass.release_groups == 1,
            pass.mesh_groups == jobs@.len(),
    {
        MeshPass { params: self.params(jobs.len()), release_groups: 1, mesh_groups: jobs.len() }
    }

    /// The fills that forget every allocation, as [`Mesher::reset`] does: the whole of the
    /// sections' meshes with none, and of each the offset with a byte that makes it have no slot;
    /// and of the allocator its counters and the tops of its stacks with none.
    pub fn encode_reset(&self) -> (fills: Vec<Fill>)
        requires
            self.section_count * 32 <= usize::MAX,
        ensures
            fills@ == reset_fills(self.section_count as int),
    {
        let n = self.section_count;
        let ghost all = reset_fills(n as int);
        let mut fills: Vec<Fill> = Vec::new();
        fills.push(Fill { meshes: true, at: 0, len: n * 32, byte: 0 });
        let mut s: usize = 0;
        assert(fills@ =~= all.take(1));
        while s < n
            invariant
                s <= n,
                n * 32 <= usize::MAX,
                all == reset_fills(n as int),
                fills@ == all.take(1 + s),
            decreases n - s,
        {
            fills.push(Fill { meshes: true, at: 32 * s, len: 4, byte: 0xFF });
            assert(fills@ =~= all.take(2 + s));
            s += 1;
        }
        fills.push(Fill { meshes: false, at: 0, len: 12, byte: 0 });
        fills.push(Fill { meshes: false, at: 16, len: 4 * NUM_CLASSES, byte: 0 });
        assert(fills@ =~= all);
        fills
    }

    /// The blocks of a section, as they are sent, and where they go.
    pub fn upload_section(world: &World, s: usize) -> (out: (usize, Vec<u16>))
        requires
            world.wf(),
            s < world.shape().sections(),
        ensures
            out.0 == s * 4096,
            out.1@ == world.blocks@.subrange(s * 4096, s * 4096 + 4096),
    {
        proof {
            section_is_stored(world.blocks@.len() as int, world.shape().sections(), s as int);
            assert(world.blocks.len() <= usize::MAX);
        }
        (s * 4096, blocks_of(&world.blocks, s * 4096))
    }

    /// The jobs that mesh every section.
    pub fn all_jobs(&self) -> (jobs: Vec<u32>)
        requires
            self.section_count <= u32::MAX,
        ensures
            jobs@ == Seq::new(self.section_count as nat, |s: int| s as u32),
    {
        numbers_below(self.section_count)
    }

    /// What the mesher holds: the faces and the slots of its sections, and its allocator.
    pub fn stats(alloc: &AllocState, meshes: &Vec<SectionMesh>) -> (stats: AllocStats)
        requires
            meshes@.len() <= u32::MAX,
            forall|s: int| 0 <= s < meshes@.len() ==> (#[trigger] meshes@[s]).faces() <= u32::MAX,
            forall|c: int| 0 <= c < 10 ==> #[trigger] alloc.free_top[c] >= 0,
        ensures
            stats.live_faces == all_faces(meshes@),
            stats.live_capacity == all_capacity(meshes@),
            stats.bump == alloc.bump,
            stats.overflow == alloc.overflow,
            stats.free_entries == tops(alloc.free_top@),
    {
        let mut live_faces: u64 = 0;
        let mut live_capacity: u64 = 0;
        let mut s: usize = 0;
        assert(meshes@.take(0) =~= Seq::empty());
        while s < meshes.len()
            invariant
                s <= meshes@.len(),
                meshes@.len() <= u32::MAX,
                forall|t: int| 0 <= t < meshes@.len() ==> (#[trigger] meshes@[t]).faces() <= u32::MAX,
                live_faces == all_faces(meshes@.take(s as int)),
                live_capacity == all_capacity(meshes@.take(s as int)),
                live_faces <= s * 0xFFFF_FFFF,
                live_capacity <= s * 0xFFFF_FFFF,
            decreases meshes@.len() - s,
        {
            let m = meshes[s];
            assert(meshes@.take(s + 1).drop_last() =~= meshes@.take(s as int));
            assert(m.faces() <= u32::MAX);
            live_faces = live_faces + m.total() as u64;
            live_capacity = live_capacity + m.capacity as u64;
            s += 1;
        }
        assert(meshes@.take(s as int) =~= meshes@);
        let mut free_entries: u64 = 0;
        let mut c: usize = 0;
        let ghost all = alloc.free_top@;
        assert(all.take(0) =~= Seq::empty());
        while c < 10
            invariant
                c <= 10,
                all == alloc.free_top@,
                all.len() == 10,
                forall|k: int| 0 <= k < 10 ==> #[trigger] alloc.free_top[k] >= 0,
                free_entries == tops(all.take(c as int)),
                free_entries <= c * 0x7FFF_FFFF,
            decreases 10 - c,
        {
            let top = alloc.free_top[c];
            assert(all.take(c + 1).drop_last() =~= all.take(c as int));
            assert(alloc.free_top[c as int] >= 0);
            free_entries = free_entries + top as u64;
            c += 1;
        }
        assert(all.take(c as int) =~= all);
        AllocStats { live_faces, live_capacity, bump: alloc.bump as u64, overflow: alloc.overflow, free_entries }
    }

    /// The allocator with every allocation forgotten, and the sections' meshes, all empty.
    pub fn reset(&self, alloc: &AllocState) -> (out: (AllocState, Vec<SectionMesh>))
        ensures
            is_forgotten(*alloc, out.0),
            out.1@.len() == self.section_count,
            forall|s: int| 0 <= s < out.1@.len() ==> (#[trigger] out.1@[s]).is_empty(),
    {
        let forgotten = AllocState {
            bump: 0,
            overflow: 0,
            retired: 0,
            capacity: alloc.capacity,
            free_top: [0; 10],
            free_base: alloc.free_base,
            pad: alloc.pad,
        };
        let mut meshes: Vec<SectionMesh> = Vec::new();
        while meshes.len() < self.section_count
            invariant
                meshes@.len() <= self.section_count,
                forall|s: int| 0 <= s < meshes@.len() ==> (#[trigger] meshes@[s]).is_empty(),
            decreases self.section_count - meshes@.len(),
        {
            meshes.push(SectionMesh::empty());
        }
        (forgotten, meshes)
    }

    /// The allocator with its overflow counter cleared.
    pub fn clear_overflow(alloc: &AllocState) -> (out: AllocState)
        ensures
            out == (AllocState { overflow: 0, ..*alloc }),
    {
        AllocState { overflow: 0, ..*alloc }
    }

    /// Every section's faces, sorted; `None` where one does not sit in its slot, or not in
    /// its direction's run, or has a reserved bit set.
    pub fn read_faces(meshes: &Vec<SectionMesh>, faces: &Vec<[u32; 2]>) -> (out: Option<Vec<Vec<Face>>>)
        ensures
            out is Some <==> forall|s: int| 0 <= s < meshes@.len() ==> is_sound(#[trigger] meshes@[s], faces@),
            match out {
                Some(all) => all@.len() == meshes@.len() && forall|s: int|
                    0 <= s < meshes@.len() ==> ordered((#[trigger] all@[s])@, |f: Face| face_order(f))
                        && all@[s]@.to_multiset() == slot_faces(meshes@[s], faces@).to_multiset(),
                None => true,
            },
    {
        let mut out: Vec<Vec<Face>> = Vec::new();
        let mut s: usize = 0;
        while s < meshes.len()
            invariant
                s <= meshes@.len(),
                out@.len() == s,
                forall|t: int| 0 <= t < s ==> is_sound(#[trigger] meshes@[t], faces@),
                forall|t: int|
                    0 <= t < s ==> ordered((#[trigger] out@[t])@, |f: Face| face_order(f)) && out@[t]@.to_multiset()
                        == slot_faces(meshes@[t], faces@).to_multiset(),
            decreases meshes@.len() - s,
        {
            match read_slot(&meshes[s], faces) {
                Some(list) => {
                    out.push(sort_faces(&list));
                },
                None => {
                    assert(!is_sound(meshes@[s as int], faces@));
                    return None;
                },
            }
            s += 1;
        }
        Some(out)
    }
}

/// The faces of all sections.
pub open spec fn all_faces(meshes: Seq<SectionMesh>) -> int
    decreases meshes.len(),
{
    if meshes.len() == 0 {
        0
    } else {
        all_faces(meshes.drop_last()) + meshes.last().faces()
    }
}

/// The capacity of all slots.
pub open spec fn all_capacity(meshes: Seq<SectionMesh>) -> int
    decreases meshes.len(),
{
    if meshes.len() == 0 {
        0
    } else {
        all_capacity(meshes.drop_last()) + meshes.last().capacity
    }
}

/// The entries of some stacks.
pub open spec fn tops(top: Seq<i32>) -> int
    decreases top.len(),
{
    if top.len() == 0 {
        0
    } else {
        tops(top.drop_last()) + top.last()
    }
}

/// The faces of a section before those of direction `d`.
pub open spec fn faces_before(m: SectionMesh, d: int) -> int
    decreases d,
{
    if d <= 0 {
        0
    } else {
        faces_before(m, d - 1) + m.count[d - 1]
    }
}

/// The packed face holds no reserved bit, and is of direction `d`.
pub open spec fn is_of(words: [u32; 2], d: int) -> bool {
    words[0] >> 23 == 0 && (words[0] >> 12) & 7 == d
}

/// The faces of a section sit in its slot, each in its direction's run.
pub open spec fn is_sound(m: SectionMesh, faces: Seq<[u32; 2]>) -> bool {
    if m.offset == NONE {
        m.faces() == 0
    } else {
        &&& m.faces() <= m.capacity
        &&& m.offset + m.faces() <= faces.len()
        &&& forall|d: int, i: int|
            0 <= d < 6 && 0 <= i < m.count[d] ==> is_of(#[trigger] faces[m.offset + faces_before(m, d) + i], d)
    }
}

/// The faces in a section's slot.
pub open spec fn slot_faces(m: SectionMesh, faces: Seq<[u32; 2]>) -> Seq<Face> {
    if m.offset == NONE {
        Seq::empty()
    } else {
        Seq::new(
            m.faces() as nat,
            |i: int| Face::unpacked(faces[m.offset + i][0], faces[m.offset + i][1]),
        )
    }
}

/// The faces in a section's slot, as they are.
fn read_slot(m: &SectionMesh, faces: &Vec<[u32; 2]>) -> (out: Option<Vec<Face>>)
    ensures
        out is Some <==> is_sound(*m, faces@),
        match out {
            Some(list) => list@ == slot_faces(*m, faces@),
            None => true,
        },
{
    let ghost want = slot_faces(*m, faces@);
    let c = m.count;
    let total = c[0] as u64 + c[1] as u64 + c[2] as u64 + c[3] as u64 + c[4] as u64 + c[5] as u64;
    assert(total == m.faces());
    let mut out: Vec<Face> = Vec::new();
    if m.offset == NONE {
        if total != 0 {
            return None;
        }
        assert(out@ =~= want);
        return Some(out);
    }
    if total > m.capacity as u64 || m.offset as u64 + total > faces.len() as u64 {
        return None;
    }
    proof {
        reveal_with_fuel(faces_before, 7);
    }
    let first = m.offset as usize;
    let mut at: usize = first;
    let mut d: usize = 0;
    while d < 6
        invariant
            d <= 6,
            m.offset != NONE,
            first == m.offset,
            want == slot_faces(*m, faces@),
            m.offset + m.faces() <= faces@.len(),
            m.faces() <= m.capacity,
            at == m.offset + faces_before(*m, d as int),
            faces_before(*m, 6) == m.faces(),
            out@ == want.take(at - first),
            forall|e: int, i: int|
                0 <= e < d && 0 <= i < m.count[e] ==> is_of(#[trigger] faces@[m.offset + faces_before(*m, e) + i], e),
        decreases 6 - d,
    {
        proof {
            runs_fit(*m, d + 1);
        }
        let n = m.count[d] as usize;
        let ghost base = at;
        let mut i: usize = 0;
        while i < n
            invariant
                i <= n,
                d < 6,
                n == m.count[d as int],
                m.offset != NONE,
                first == m.offset,
                want == slot_faces(*m, faces@),
                m.offset + m.faces() <= faces@.len(),
                base == m.offset + faces_before(*m, d as int),
                base + n <= m.offset + m.faces(),
                m.faces() <= m.capacity,
                at == base + i,
                out@ == want.take(at - first),
                forall|j: int| 0 <= j < i ==> is_of(#[trigger] faces@[base + j], d as int),
            decreases n - i,
        {
            assert(at < faces.len());
            let words = faces[at];
            let a = words[0];
            if a >> 23 != 0 || (a >> 12) & 7 != d as u32 {
                assert(!is_of(faces@[m.offset + faces_before(*m, d as int) + i], d as int));
                return None;
            }
            out.push(Face::unpack(words));
            proof {
                runs_fit(*m, d as int);
                let k = at - first;
                assert(want[k] == Face::unpacked(faces@[m.offset + k][0], faces@[m.offset + k][1]));
                assert(want.take(k + 1) =~= want.take(k).push(want[k]));
            }
            at += 1;
            i += 1;
        }
        assert forall|e: int, i: int| 0 <= e < d + 1 && 0 <= i < m.count[e] implies is_of(
            #[trigger] faces@[m.offset + faces_before(*m, e) + i],
            e,
        ) by {
            if e == d {
                assert(is_of(faces@[base + i], d as int));
            }
        }
        d += 1;
    }
    assert(want.take(at - first) =~= want);
    Some(out)
}

/// The runs up to a direction are among the faces.
proof fn runs_fit(m: SectionMesh, d: int)
    requires
        0 <= d <= 6,
    ensures
        0 <= faces_before(m, d) <= m.faces(),
{
    reveal_with_fuel(faces_before, 7);
}

} // verus!
