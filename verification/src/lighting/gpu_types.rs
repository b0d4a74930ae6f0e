//! The plain values that a renderer and its shaders exchange.
use vstd::prelude::*;

verus! {

pub const NONE: u32 = u32::MAX;

pub const MAX_FACES_PER_DIR: u32 = 4096;

pub const MAX_FACES: u32 = 24576;

pub const MIN_CLASS_FACES: u32 = 64;

pub const NUM_CLASSES: usize = 10;

/// The side of a section's brick in the light atlas: its cells and one more on
/// each side.
pub const BRICK: usize = 18;

pub const LIGHT_NONE: u32 = 0;

pub const LIGHT_FLAT: u32 = 1;

pub const LIGHT_SMOOTH: u32 = 2;

pub const LIGHT_VERTEX: u32 = 3;

pub const LIGHT_HW: u32 = 4;

pub const FLAG_CAUSTICS: u32 = 1;

pub const FLAG_FOG: u32 = 2;

pub const FLAG_DEBUG_STEPS: u32 = 4;

/// The size of a world, in sections.
#[derive(Clone, Copy, Debug, PartialEq, Eq)]
pub struct Grid {
    pub nx: u32,
    pub ny: u32,
    pub nz: u32,
    pub pad: u32,
}

/// Where a section is, in blocks, and which brick of the light atlas it has.
#[derive(Clone, Copy, Debug, PartialEq, Eq)]
pub struct SectionInfo {
    pub origin: [i32; 4],
    pub brick: u32,
    pub pad: [u32; 3],
}

/// Where a section's faces are, and how many there are of each direction.
#[derive(Clone, Copy, Debug, PartialEq, Eq)]
pub struct SectionMesh {
    pub offset: u32,
    pub capacity: u32,
    pub count: [u32; 6],
    pub translucent: u32,
    pub pad: [u32; 3],
}

impl SectionMesh {
    /// The number of faces.
    pub open spec fn faces(self) -> int {
        self.count[0] + self.count[1] + self.count[2] + self.count[3] + self.count[4] + self.count[5]
            + self.translucent
    }

    /// No faces, and no place for any.
    pub fn empty() -> (mesh: SectionMesh)
        ensures
            mesh.offset == NONE,
            mesh.capacity == 0,
            mesh.faces() == 0,
            forall|d: int| 0 <= d < 6 ==> #[trigger] mesh.count[d] == 0,
            mesh.translucent == 0,
            mesh.pad@ == seq![0u32, 0, 0],
    {
        let mesh = SectionMesh { offset: NONE, capacity: 0, count: [0; 6], translucent: 0, pad: [0; 3] };
        assert(mesh.pad@ =~= seq![0u32, 0, 0]);
        mesh
    }

    /// The number of faces.
    pub fn total(&self) -> (n: u32)
        requires
            self.faces() <= u32::MAX,
        ensures
            n == self.faces(),
    {
        let c = self.count;
        c[0] + c[1] + c[2] + c[3] + c[4] + c[5] + self.translucent
    }
}

/// The state of the face buffer's allocator.
#[derive(Clone, Copy, Debug)]
pub struct AllocState {
    pub bump: u32,
    pub overflow: u32,
    pub retired: u32,
    pub capacity: u32,
    pub free_top: [i32; 10],
    pub free_base: [u32; 10],
    pub pad: [u32; 2],
}

/// What a meshing dispatch is told.
#[derive(Clone, Copy, Debug)]
pub struct MeshParams {
    pub alloc_mode: u32,
    pub job_count: u32,
    pub pad: [u32; 2],
}

/// What a culling dispatch is told.
#[derive(Clone, Copy, Debug)]
pub struct CullParams {
    pub section_count: u32,
    pub dir_cull: u32,
    pub chunk_shift: u32,
    pub chunk_capacity: u32,
}

/// What a lighting dispatch is told.
#[derive(Clone, Copy, Debug)]
pub struct LightParams {
    pub job_count: u32,
    pub pass: u32,
    pub epoch: u32,
    pub list_cap: u32,
    pub world: [i32; 4],
}

} // verus!
