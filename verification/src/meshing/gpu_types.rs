//! The plain values that a mesher, a renderer and their shaders exchange.
use vstd::prelude::*;

verus! {

pub const NONE: u32 = u32::MAX;

pub const MAX_FACES_PER_DIR: u32 = 4096;

pub const MAX_FACES: u32 = 24576;

pub const MIN_CLASS_FACES: u32 = 64;

pub const NUM_CLASSES: usize = 10;

/// Where a section is, in blocks, and the sections beside it.
#[derive(Clone, Copy, Debug, PartialEq, Eq)]
pub struct SectionInfo {
    pub origin: [i32; 4],
    pub neighbour: [u32; 6],
    pub pad: [u32; 2],
}

/// Where a section's faces are, and how many there are of each direction.
#[derive(Clone, Copy, Debug, PartialEq, Eq)]
pub struct SectionMesh {
    pub offset: u32,
    pub capacity: u32,
    pub count: [u32; 6],
}

impl SectionMesh {
    /// The number of faces.
    pub open spec fn faces(self) -> int {
        self.count[0] + self.count[1] + self.count[2] + self.count[3] + self.count[4] + self.count[5]
    }

    /// No faces, and no place for any.
    pub open spec fn is_empty(self) -> bool {
        &&& self.offset == NONE
        &&& self.capacity == 0
        &&& forall|d: int| 0 <= d < 6 ==> #[trigger] self.count[d] == 0
        &&& self.faces() == 0
    }

    /// No faces, and no place for any.
    pub fn empty() -> (mesh: SectionMesh)
        ensures
            mesh.is_empty(),
    {
        SectionMesh { offset: NONE, capacity: 0, count: [0; 6] }
    }

    /// The number of faces.
    pub fn total(&self) -> (n: u32)
        requires
            self.faces() <= u32::MAX,
        ensures
            n == self.faces(),
    {
        let c = self.count;
        c[0] + c[1] + c[2] + c[3] + c[4] + c[5]
    }
}

/// The state of the face buffer's allocator.
#[derive(Clone, Copy, Debug)]
pub struct AllocState {
    pub bump: u32,
    pub overflow: u32,
    pub retired: u32,
    pub capacity: u32,
    pub free_top: [i32; 10],
    pub free_base: [u32; 10],
    pub pad: [u32; 2],
}

/// What a meshing dispatch is told.
#[derive(Clone, Copy, Debug)]
pub struct MeshParams {
    pub alloc_mode: u32,
    pub job_count: u32,
    pub pad: [u32; 2],
}

/// What a culling dispatch is told.
#[derive(Clone, Copy, Debug)]
pub struct CullParams {
    pub section_count: u32,
    pub dir_cull: u32,
    pub compact: u32,
    pub indexed: u32,
    pub chunk_shift: u32,
    pub chunk_capacity: u32,
    pub pad: [u32; 2],
}

} // verus!
