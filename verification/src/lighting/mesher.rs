//! The bookkeeping of the mesher: how its face buffer is divided, and what it reads back.
use vstd::prelude::*;

use crate::lighting::face::Face;
use crate::lighting::gpu_types::{AllocState, Grid, SectionMesh, NONE};
use crate::lighting::world::{numbers_below, World};
use crate::voxel::slots::{stack_bases, stack_entries};
use crate::voxel::sorted::{ordered, sorted_by_key};

verus! {

/// The order of faces: by position, then direction, width, height, occlusion, state and
/// quad.
pub open spec fn face_order(f: Face) -> int {
    ((((((((f.pos[0] * 256 + f.pos[1]) * 256 + f.pos[2]) * 256 + f.dir) * 256 + f.w) * 256 + f.h) * 256 + f.ao) * 65536
        + f.state) * 65536 + f.quad) as int
}

fn order_key(f: Face) -> (k: u128)
    ensures
        k == face_order(f),
{
    let a = ((f.pos[0] as u128 * 256 + f.pos[1] as u128) * 256 + f.pos[2] as u128) * 256 + f.dir as u128;
    let b = ((a * 256 + f.w as u128) * 256 + f.h as u128) * 256 + f.ao as u128;
    (b * 65536 + f.state as u128) * 65536 + f.quad as u128
}

/// Faces in order.
fn sort_faces(faces: &Vec<Face>) -> (out: Vec<Face>)
    ensures
        ordered(out@, |f: Face| face_order(f)),
        out@.to_multiset() == faces@.to_multiset(),
{
    let mut keys: Vec<u128> = Vec::new();
    let mut i: usize = 0;
    while i < faces.len()
        invariant
            i <= faces@.len(),
            keys@.len() == i,
            forall|j: int| 0 <= j < i ==> keys@[j] == face_order(#[trigger] faces@[j]),
        decreases faces@.len() - i,
    {
        keys.push(order_key(faces[i]));
        i += 1;
    }
    let ghost key = |f: Face| face_order(f);
    sorted_by_key(faces, &keys, Ghost(key))
}

/// A meshing pass: the jobs it is told of, and the groups of 256 threads that release slots and
/// that mesh. There is no dispatch of no groups.
#[derive(Clone, Copy, Debug, PartialEq, Eq, Structural)]
pub struct MeshPass {
    pub job_count: u32,
    pub release_groups: usize,
    pub mesh_groups: usize,
}

/// A section's blocks are among those of the world.
pub proof fn section_is_stored(blocks: int, sections: int, s: int)
    requires
        blocks == sections * 4096,
        0 <= s < sections,
    ensures
        0 <= s * 4096,
        s * 4096 + 4096 <= blocks,
{
}

/// The 4096 blocks from a place on.
pub fn blocks_of(blocks: &Vec<u16>, at: usize) -> (out: Vec<u16>)
    requires
        at + 4096 <= blocks@.len(),
    ensures
        out@ == blocks@.subrange(at as int, at + 4096),
{
    let mut out: Vec<u16> = Vec::new();
    let mut k: usize = 0;
    assert(blocks.len() <= usize::MAX);
    while k < 4096
        invariant
            k <= 4096,
            at + 4096 <= blocks@.len() <= usize::MAX,
            out@ == blocks@.subrange(at as int, at + k),
        decreases 4096 - k,
    {
        out.push(blocks[at + k]);
        assert(out@ =~= blocks@.subrange(at as int, at + k + 1));
        k += 1;
    }
    out
}

/// The sizes of a mesher's buffers, and how its allocator starts.
pub struct Mesher {
    pub section_count: usize,
    /// The face buffer's size in faces.
    pub face_capacity: usize,
    pub grid: Grid,
    /// The entries of all stacks of free slots.
    pub free_entries: usize,
    pub alloc: AllocState,
}

impl Mesher {
    /// A mesher of `world` with room for `face_capacity` faces.
    pub fn new(world: &World, face_capacity: usize) -> (m: Mesher)
        requires
            world.wf(),
            face_capacity <= u32::MAX,
        ensures
            m.section_count == world.shape().sections(),
            m.face_capacity == face_capacity,
            m.grid.nx == world.nx,
            m.grid.ny == world.ny,
            m.grid.nz == world.nz,
            m.grid.pad == 0,
            m.free_entries == stack_entries(face_capacity as int, 10),
            m.alloc.bump == 0,
            m.alloc.overflow == 0,
            m.alloc.retired == 0,
            m.alloc.capacity == face_capacity,
            forall|c: int| 0 <= c < 10 ==> #[trigger] m.alloc.free_top[c] == 0,
            forall|c: int| 0 <= c < 10 ==> #[trigger] m.alloc.free_base[c] == stack_entries(face_capacity as int, c),
            m.alloc.pad@ == seq![0u32, 0],
    {
        let (free_base, free_entries) = stack_bases(face_capacity);
        let alloc = AllocState {
            bump: 0,
            overflow: 0,
            retired: 0,
            capacity: face_capacity as u32,
            free_top: [0; 10],
            free_base,
            pad: [0; 2],
        };
        assert(alloc.pad@ =~= seq![0u32, 0]);
        Mesher { section_count: world.section_count(), face_capacity, grid: world.grid(), free_entries, alloc }
    }

    /// What meshing some sections is told, and does: the slots that were given up are released
    /// first, and a group of threads meshes each section, where there is one.
    pub fn encode(&self, jobs: &Vec<u32>) -> (pass: MeshPass)
        requires
            jobs@.len() <= self.section_count,
            jobs@.len() <= u32::MAX,
        ensures
            pass == (MeshPass { job_count: jobs@.len() as u32, release_groups: 1, mesh_groups: jobs@.len() as usize }),
    {
        MeshPass { job_count: jobs.len() as u32, release_groups: 1, mesh_groups: jobs.len() }
    }

    /// The blocks of a section, as they are sent, and where they go.
    pub fn upload_section(world: &World, s: usize) -> (out: (usize, Vec<u16>))
        requires
            world.wf(),
            s < world.shape().sections(),
        ensures
            out.0 == s * 4096,
            out.1@ == world.blocks@.subrange(s * 4096, s * 4096 + 4096),
    {
        proof {
            section_is_stored(world.blocks@.len() as int, world.shape().sections(), s as int);
            assert(world.blocks.len() <= usize::MAX);
        }
        (s * 4096, blocks_of(&world.blocks, s * 4096))
    }

    /// The jobs that mesh every section.
    pub fn all_jobs(&self) -> (jobs: Vec<u32>)
        requires
            self.section_count <= u32::MAX,
        ensures
            jobs@ == Seq::new(self.section_count as nat, |s: int| s as u32),
    {
        numbers_below(self.section_count)
    }

    /// Every section's faces, sorted; `None` where one does not sit in its slot, or not in
    /// its direction's run, or has a reserved bit set.
    pub fn read_faces(meshes: &Vec<SectionMesh>, faces: &Vec<[u32; 2]>) -> (out: Option<Vec<Vec<Face>>>)
        ensures
            out is Some <==> forall|s: int| 0 <= s < meshes@.len() ==> is_sound(#[trigger] meshes@[s], faces@),
            match out {
                Some(all) => all@.len() == meshes@.len() && forall|s: int|
                    0 <= s < meshes@.len() ==> ordered((#[trigger] all@[s])@, |f: Face| face_order(f))
                        && all@[s]@.to_multiset() == slot_faces(meshes@[s], faces@).to_multiset(),
                None => true,
            },
    {
        let mut out: Vec<Vec<Face>> = Vec::new();
        let mut s: usize = 0;
        while s < meshes.len()
            invariant
                s <= meshes@.len(),
                out@.len() == s,
                forall|t: int| 0 <= t < s ==> is_sound(#[trigger] meshes@[t], faces@),
                forall|t: int|
                    0 <= t < s ==> ordered((#[trigger] out@[t])@, |f: Face| face_order(f)) && out@[t]@.to_multiset()
                        == slot_faces(meshes@[t], faces@).to_multiset(),
            decreases meshes@.len() - s,
        {
            match read_slot(&meshes[s], faces) {
                Some(list) => {
                    out.push(sort_faces(&list));
                },
                None => {
                    assert(!is_sound(meshes@[s as int], faces@));
                    return None;
                },
            }
            s += 1;
        }
        Some(out)
    }
}

/// The faces of a section before those of direction `d`.
pub open spec fn faces_before(m: SectionMesh, d: int) -> int
    decreases d,
{
    if d <= 0 {
        0
    } else {
        faces_before(m, d - 1) + m.count[d - 1]
    }
}

/// The packed face holds no reserved bit, and is of direction `d`.
pub open spec fn is_of(words: [u32; 2], d: int) -> bool {
    words[0] >> 31 == 0 && (words[0] >> 12) & 7 == d
}

/// The faces of a section sit in its slot, each in its direction's run.
pub open spec fn is_sound(m: SectionMesh, faces: Seq<[u32; 2]>) -> bool {
    if m.offset == NONE {
        m.faces() == 0
    } else {
        &&& m.faces() <= m.capacity
        &&& m.offset + faces_before(m, 6) <= faces.len()
        &&& forall|d: int, i: int|
            0 <= d < 6 && 0 <= i < m.count[d] ==> is_of(#[trigger] faces[m.offset + faces_before(m, d) + i], d)
    }
}

/// The faces in the six runs of a section's slot.
pub open spec fn slot_faces(m: SectionMesh, faces: Seq<[u32; 2]>) -> Seq<Face> {
    if m.offset == NONE {
        Seq::empty()
    } else {
        Seq::new(
            faces_before(m, 6) as nat,
            |i: int| Face::unpacked(faces[m.offset + i][0], faces[m.offset + i][1]),
        )
    }
}

/// The faces in a section's slot, as they are.
fn read_slot(m: &SectionMesh, faces: &Vec<[u32; 2]>) -> (out: Option<Vec<Face>>)
    ensures
        out is Some <==> is_sound(*m, faces@),
        match out {
            Some(list) => list@ == slot_faces(*m, faces@),
            None => true,
        },
{
    let ghost want = slot_faces(*m, faces@);
    let c = m.count;
    let total = c[0] as u64 + c[1] as u64 + c[2] as u64 + c[3] as u64 + c[4] as u64 + c[5] as u64;
    let all = total + m.translucent as u64;
    proof {
        reveal_with_fuel(faces_before, 7);
    }
    assert(total == faces_before(*m, 6));
    assert(all == m.faces());
    let mut out: Vec<Face> = Vec::new();
    if m.offset == NONE {
        if all != 0 {
            return None;
        }
        assert(out@ =~= want);
        return Some(out);
    }
    if all > m.capacity as u64 || m.offset as u64 + total > faces.len() as u64 {
        return None;
    }
    let first = m.offset as usize;
    let mut at: usize = first;
    let mut d: usize = 0;
    while d < 6
        invariant
            d <= 6,
            m.offset != NONE,
            first == m.offset,
            want == slot_faces(*m, faces@),
            m.offset + faces_before(*m, 6) <= faces@.len(),
            faces_before(*m, 6) <= m.capacity,
            at == m.offset + faces_before(*m, d as int),
            out@ == want.take(at - first),
            forall|e: int, i: int|
                0 <= e < d && 0 <= i < m.count[e] ==> is_of(#[trigger] faces@[m.offset + faces_before(*m, e) + i], e),
        decreases 6 - d,
    {
        proof {
            runs_fit(*m, d + 1);
        }
        let n = m.count[d] as usize;
        let ghost base = at;
        let mut i: usize = 0;
        while i < n
            invariant
                i <= n,
                d < 6,
                n == m.count[d as int],
                m.offset != NONE,
                first == m.offset,
                want == slot_faces(*m, faces@),
                m.offset + faces_before(*m, 6) <= faces@.len(),
                base == m.offset + faces_before(*m, d as int),
                base + n <= m.offset + faces_before(*m, 6),
                faces_before(*m, 6) <= m.capacity,
                at == base + i,
                out@ == want.take(at - first),
                forall|j: int| 0 <= j < i ==> is_of(#[trigger] faces@[base + j], d as int),
            decreases n - i,
        {
            assert(at < faces.len());
            let words = faces[at];
            let a = words[0];
            if a >> 31 != 0 || (a >> 12) & 7 != d as u32 {
                assert(!is_of(faces@[m.offset + faces_before(*m, d as int) + i], d as int));
                return None;
            }
            out.push(Face::unpack(words));
            proof {
                runs_fit(*m, d as int);
                let k = at - first;
                assert(want[k] == Face::unpacked(faces@[m.offset + k][0], faces@[m.offset + k][1]));
                assert(want.take(k + 1) =~= want.take(k).push(want[k]));
            }
            at += 1;
            i += 1;
        }
        assert forall|e: int, i: int| 0 <= e < d + 1 && 0 <= i < m.count[e] implies is_of(
            #[trigger] faces@[m.offset + faces_before(*m, e) + i],
            e,
        ) by {
            if e == d {
                assert(is_of(faces@[base + i], d as int));
            }
        }
        d += 1;
    }
    assert(want.take(at - first) =~= want);
    Some(out)
}

/// The runs up to a direction are among all runs.
proof fn runs_fit(m: SectionMesh, d: int)
    requires
        0 <= d <= 6,
    ensures
        0 <= faces_before(m, d) <= faces_before(m, 6),
{
    reveal_with_fuel(faces_before, 7);
}

} // verus!
