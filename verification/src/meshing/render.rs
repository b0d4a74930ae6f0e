//! What drawing a frame is told.
use vstd::prelude::*;

use crate::meshing::gpu_types::{CullParams, SectionMesh};
use crate::voxel::frames::{chunk_capacity, room_for_chunks, FrameRing};

verus! {

/// The bytes of a frame's slot: its uniforms, and from [`RANGE_OFFSET`] on the count that
/// culling adds to.
pub const SLOT_BYTES: usize = 256;

pub const RANGE_OFFSET: usize = 128;

/// The smallest chunk the list has room for: 4 faces per instance.
pub const MIN_CHUNK_SHIFT: u32 = 2;

/// The largest chunk: 64 faces per instance.
pub const MAX_CHUNK_SHIFT: u32 = 6;

/// How a frame is drawn.
#[derive(Clone, Copy, Debug)]
pub struct DrawOptions {
    /// Four vertices per face with a shared index buffer, instead of six without.
    pub indexed: bool,
    /// Skip a section's directions whose faces all point away from the camera.
    pub dir_cull: bool,
    /// Pack visible draws and read the execution range from the GPU, instead of
    /// resetting culled commands and executing all of them.
    pub compact: bool,
    /// 0 for a command per draw. Otherwise chunks of `2^chunk_shift` faces per instance.
    pub chunk_shift: u32,
}

impl Default for DrawOptions {
    fn default() -> (opts: DrawOptions)
        ensures
            opts == (DrawOptions { indexed: true, dir_cull: true, compact: true, chunk_shift: 0 }),
    {
        DrawOptions { indexed: true, dir_cull: true, compact: true, chunk_shift: 0 }
    }
}

impl DrawOptions {
    /// Commands, or chunks of a size the list has room for.
    pub open spec fn is_drawable(self) -> bool {
        self.chunk_shift == 0 || 2 <= self.chunk_shift <= 6
    }

    /// Whether the options can be drawn.
    pub fn drawable(self) -> (yes: bool)
        ensures
            yes == self.is_drawable(),
    {
        self.chunk_shift == 0 || (MIN_CHUNK_SHIFT <= self.chunk_shift && self.chunk_shift <= MAX_CHUNK_SHIFT)
    }
}

/// The vertices or indices of an instance of a chunk.
pub open spec fn per_instance(chunk_shift: u32) -> int {
    if chunk_shift == 0 {
        0
    } else if chunk_shift == 2 {
        24
    } else if chunk_shift == 3 {
        48
    } else if chunk_shift == 4 {
        96
    } else if chunk_shift == 5 {
        192
    } else {
        384
    }
}

/// What a renderer keeps between frames.
pub struct Renderer {
    pub section_count: usize,
    pub chunk_capacity: usize,
    pub ring: FrameRing,
}

impl Renderer {
    /// A renderer of so many sections, of a mesher that can hold `max_faces` faces.
    pub fn new(section_count: usize, max_faces: usize) -> (r: Renderer)
        requires
            room_for_chunks(max_faces as int, section_count as int, 4) <= usize::MAX,
        ensures
            r.section_count == section_count,
            r.chunk_capacity == room_for_chunks(max_faces as int, section_count as int, 4),
            r.ring.slot_bytes == SLOT_BYTES,
            r.ring.frame == 0,
            r.ring.wf(),
    {
        Renderer {
            section_count,
            chunk_capacity: chunk_capacity(max_faces, section_count),
            ring: FrameRing::new(SLOT_BYTES),
        }
    }

    /// The words that a frame's range starts as: for chunks the vertices or indices of an
    /// instance, and a count of none.
    pub fn range_words(opts: DrawOptions) -> (words: [u32; 5])
        requires
            opts.is_drawable(),
        ensures
            words[0] == per_instance(opts.chunk_shift),
            words[1] == 0,
            words[2] == 0,
            words[3] == 0,
            words[4] == 0,
    {
        let shift = opts.chunk_shift;
        assert(6u32 << 2u32 == 24 && 6u32 << 3u32 == 48 && 6u32 << 4u32 == 96 && 6u32 << 5u32 == 192 && 6u32 << 6u32 == 384)
            by (bit_vector);
        let per = if shift > 0 {
            6u32 << shift
        } else {
            0
        };
        [per, 0, 0, 0, 0]
    }

    /// What culling is told.
    pub fn cull_params(&self, opts: DrawOptions) -> (params: CullParams)
        requires
            self.section_count <= u32::MAX,
            self.chunk_capacity <= u32::MAX,
        ensures
            is_cull_params(self, opts, params),
    {
        let params = CullParams {
            section_count: self.section_count as u32,
            dir_cull: opts.dir_cull as u32,
            compact: opts.compact as u32,
            indexed: opts.indexed as u32,
            chunk_shift: opts.chunk_shift,
            chunk_capacity: self.chunk_capacity as u32,
            pad: [0; 2],
        };
        assert(params.pad@ =~= seq![0u32, 0]);
        params
    }

    /// The groups of 64 threads that cover every section.
    pub fn cull_groups(&self) -> (n: usize)
        requires
            self.section_count <= usize::MAX - 63,
        ensures
            n == (self.section_count + 63) / 64,
    {
        (self.section_count + 63) / 64
    }

    /// Where the count of the last frame's visible draws is, in words of the ring.
    pub fn last_count_word(&self) -> (word: usize)
        requires
            self.ring.slot_bytes == SLOT_BYTES,
            self.ring.frame <= usize::MAX - 3,
        ensures
            word == (((self.ring.frame + 2) % 3) * 256 + 128) / 4 + 1,
    {
        let at = self.ring.last();
        (at + RANGE_OFFSET) / 4 + 1
    }
}

/// What a culling pass fills: a command for each draw, or the list of chunks.
#[derive(Clone, Copy, Debug, PartialEq, Eq, Structural)]
pub enum CullOutput {
    Commands,
    Chunks,
}

impl CullOutput {
    /// The name of the kernel that fills it.
    pub fn kernel(self) -> (name: &'static str)
        ensures
            name@ == (match self {
                CullOutput::Commands => "cull_sections"@,
                CullOutput::Chunks => "cull_chunks"@,
            }),
    {
        match self {
            CullOutput::Commands => "cull_sections",
            CullOutput::Chunks => "cull_chunks",
        }
    }
}

/// A culling pass: what it is told, what it fills, where in the ring its uniforms are and its
/// count goes, whether it is given the indices of quads and has to declare that it writes
/// commands, which are reached through another buffer, and the groups of threads.
#[derive(Clone, Copy, Debug)]
pub struct CullPass {
    pub params: CullParams,
    pub output: CullOutput,
    pub uniforms_at: usize,
    pub count_at: usize,
    pub indices: bool,
    pub declares_commands: bool,
    pub groups: usize,
    pub threads: usize,
}

/// How the corners of a face are found.
#[derive(Clone, Copy, Debug, PartialEq, Eq, Structural)]
pub enum Pipeline {
    List,
    Indexed,
    ChunkList,
    ChunkIndexed,
}

impl Pipeline {
    /// The name of the function that finds them.
    pub fn vertex(self) -> (name: &'static str)
        ensures
            name@ == (match self {
                Pipeline::List => "terrain_vertex_list"@,
                Pipeline::Indexed => "terrain_vertex_indexed"@,
                Pipeline::ChunkList => "terrain_vertex_chunk_list"@,
                Pipeline::ChunkIndexed => "terrain_vertex_chunk_indexed"@,
            }),
    {
        match self {
            Pipeline::List => "terrain_vertex_list",
            Pipeline::Indexed => "terrain_vertex_indexed",
            Pipeline::ChunkList => "terrain_vertex_chunk_list",
            Pipeline::ChunkIndexed => "terrain_vertex_chunk_indexed",
        }
    }
}

/// What is drawn.
#[derive(Clone, Copy, Debug, PartialEq, Eq, Structural)]
pub enum Draw {
    /// The instances of chunks, as many as the arguments at this place of the ring say.
    Chunks { indexed: bool, args_at: usize },
    /// The commands, as many as the range at this place of the ring says.
    Counted { range_at: usize },
    /// The first so many commands.
    Commands { count: usize },
}

/// A drawing pass: how it finds the corners of a face, where in the ring its uniforms are,
/// whether it is given the list of chunks and has to declare the indices of quads, which only
/// commands name, and what it draws.
#[derive(Clone, Copy, Debug, PartialEq, Eq, Structural)]
pub struct DrawPass {
    pub pipeline: Pipeline,
    pub uniforms_at: usize,
    pub chunks: bool,
    pub declares_indices: bool,
    pub draw: Draw,
}

/// The drawing pass of a frame.
pub open spec fn draw_pass(section_count: usize, slot: usize, opts: DrawOptions) -> DrawPass {
    let chunked = opts.chunk_shift > 0;
    DrawPass {
        pipeline: if chunked {
            if opts.indexed {
                Pipeline::ChunkIndexed
            } else {
                Pipeline::ChunkList
            }
        } else if opts.indexed {
            Pipeline::Indexed
        } else {
            Pipeline::List
        },
        uniforms_at: slot,
        chunks: chunked,
        declares_indices: !chunked && opts.indexed,
        draw: if chunked {
            Draw::Chunks { indexed: opts.indexed, args_at: (slot + 128) as usize }
        } else if opts.compact {
            Draw::Counted { range_at: (slot + 128) as usize }
        } else {
            Draw::Commands { count: (section_count * 6) as usize }
        },
    }
}

/// The culling pass of a frame, but for what its kernel is told.
pub open spec fn is_cull_pass(section_count: usize, slot: usize, opts: DrawOptions, pass: CullPass) -> bool {
    let chunked = opts.chunk_shift > 0;
    &&& pass.output == (if chunked {
        CullOutput::Chunks
    } else {
        CullOutput::Commands
    })
    &&& pass.uniforms_at == slot
    &&& pass.count_at == slot + 128
    &&& pass.indices == !chunked
    &&& pass.declares_commands == !chunked
    &&& pass.groups == (section_count + 63) / 64
    &&& pass.threads == 64
}

/// What culling is told of a renderer and of how it draws.
pub open spec fn is_cull_params(r: &Renderer, opts: DrawOptions, params: CullParams) -> bool {
    &&& params.section_count == r.section_count
    &&& params.dir_cull == (if opts.dir_cull {
        1u32
    } else {
        0
    })
    &&& params.compact == (if opts.compact {
        1u32
    } else {
        0
    })
    &&& params.indexed == (if opts.indexed {
        1u32
    } else {
        0
    })
    &&& params.chunk_shift == opts.chunk_shift
    &&& params.chunk_capacity == r.chunk_capacity
    &&& params.pad@ == seq![0u32, 0]
}

/// A frame: where its slot begins, the words that its range starts as, and its two passes.
#[derive(Clone, Copy, Debug)]
pub struct FramePlan {
    pub slot: usize,
    pub range: [u32; 5],
    pub cull: CullPass,
    pub draw: DrawPass,
}

impl Renderer {
    /// The sizes fit what the passes are told them in.
    pub open spec fn fits(&self) -> bool {
        &&& self.section_count <= u32::MAX
        &&& self.section_count * 6 <= usize::MAX
        &&& self.section_count <= usize::MAX - 63
        &&& self.chunk_capacity <= u32::MAX
    }

    /// The culling pass of a frame whose slot begins at `slot`.
    pub fn encode_cull(&self, slot: usize, opts: DrawOptions) -> (pass: CullPass)
        requires
            self.fits(),
            opts.is_drawable(),
            slot <= usize::MAX - 128,
        ensures
            is_cull_params(self, opts, pass.params),
            is_cull_pass(self.section_count, slot, opts, pass),
    {
        let chunked = opts.chunk_shift > 0;
        CullPass {
            params: self.cull_params(opts),
            output: if chunked {
                CullOutput::Chunks
            } else {
                CullOutput::Commands
            },
            uniforms_at: slot,
            count_at: slot + RANGE_OFFSET,
            indices: !chunked,
            declares_commands: !chunked,
            groups: self.cull_groups(),
            threads: 64,
        }
    }

    /// The drawing pass of a frame whose slot begins at `slot`.
    pub fn encode_draw(&self, slot: usize, opts: DrawOptions) -> (pass: DrawPass)
        requires
            self.fits(),
            slot <= usize::MAX - 128,
        ensures
            pass == draw_pass(self.section_count, slot, opts),
    {
        let chunked = opts.chunk_shift > 0;
        let pipeline = match (chunked, opts.indexed) {
            (false, false) => Pipeline::List,
            (false, true) => Pipeline::Indexed,
            (true, false) => Pipeline::ChunkList,
            (true, true) => Pipeline::ChunkIndexed,
        };
        let draw = if chunked {
            Draw::Chunks { indexed: opts.indexed, args_at: slot + RANGE_OFFSET }
        } else if opts.compact {
            Draw::Counted { range_at: slot + RANGE_OFFSET }
        } else {
            Draw::Commands { count: self.section_count * 6 }
        };
        DrawPass { pipeline, uniforms_at: slot, chunks: chunked, declares_indices: !chunked && opts.indexed, draw }
    }

    /// The next frame: its slot of the ring, what is written there beside the uniforms, and
    /// its passes.
    pub fn encode_frame(&mut self, opts: DrawOptions) -> (plan: FramePlan)
        requires
            old(self).fits(),
            old(self).ring.slot_bytes == SLOT_BYTES,
            old(self).ring.frame < usize::MAX,
            opts.is_drawable(),
        ensures
            final(self).section_count == old(self).section_count,
            final(self).chunk_capacity == old(self).chunk_capacity,
            final(self).ring.slot_bytes == SLOT_BYTES,
            final(self).ring.frame == old(self).ring.frame + 1,
            plan.slot == (old(self).ring.frame % 3) * 256,
            plan.range@ == seq![per_instance(opts.chunk_shift) as u32, 0, 0, 0, 0],
            is_cull_params(old(self), opts, plan.cull.params),
            is_cull_pass(old(self).section_count, plan.slot, opts, plan.cull),
            plan.draw == draw_pass(old(self).section_count, plan.slot, opts),
    {
        let slot = self.ring.advance();
        let range = Renderer::range_words(opts);
        assert(range@ =~= seq![per_instance(opts.chunk_shift) as u32, 0, 0, 0, 0]);
        FramePlan { slot, range, cull: self.encode_cull(slot, opts), draw: self.encode_draw(slot, opts) }
    }
}

/// A frame is drawn from what its culling found: with the same uniforms, from the list of
/// chunks exactly where that was filled, and as many draws as were counted, which the culling
/// counts where the drawing reads it. Where nothing is counted, every command there is room
/// for is run.
pub proof fn a_frame_draws_what_it_kept(section_count: usize, slot: usize, opts: DrawOptions, cull: CullPass)
    requires
        is_cull_pass(section_count, slot, opts, cull),
        slot + 128 <= usize::MAX,
        section_count * 6 <= usize::MAX,
    ensures
        ({
            let pass = draw_pass(section_count, slot, opts);
            &&& pass.uniforms_at == cull.uniforms_at
            &&& pass.chunks == (cull.output is Chunks)
            &&& match pass.draw {
                Draw::Chunks { indexed, args_at } => cull.output is Chunks && args_at == cull.count_at,
                Draw::Counted { range_at } => cull.output is Commands && range_at == cull.count_at,
                Draw::Commands { count } => cull.output is Commands && count == section_count * 6,
            }
        }),
        cull.groups * cull.threads >= section_count,
{
}

/// What the camera sees of a section: whether any of it is in view, and which of its
/// directions may face the camera.
#[derive(Clone, Copy, Debug, PartialEq, Eq)]
pub struct InView {
    pub inside: bool,
    pub facing: [bool; 6],
}

/// The faces of direction `d` that are drawn of a section.
pub open spec fn drawn_of(mesh: SectionMesh, view: InView, dir_cull: bool, d: int) -> int {
    if view.inside && (!dir_cull || view.facing[d]) {
        mesh.count[d] as int
    } else {
        0
    }
}

/// The faces that are drawn of a section.
pub open spec fn drawn_in(mesh: SectionMesh, view: InView, dir_cull: bool) -> int {
    drawn_of(mesh, view, dir_cull, 0) + drawn_of(mesh, view, dir_cull, 1) + drawn_of(mesh, view, dir_cull, 2) + drawn_of(
        mesh,
        view,
        dir_cull,
        3,
    ) + drawn_of(mesh, view, dir_cull, 4) + drawn_of(mesh, view, dir_cull, 5)
}

/// The faces that are drawn of the first `n` sections.
pub open spec fn drawn_total(meshes: Seq<SectionMesh>, views: Seq<InView>, dir_cull: bool, n: int) -> int
    decreases n,
{
    if n <= 0 {
        0
    } else {
        drawn_total(meshes, views, dir_cull, n - 1) + drawn_in(meshes[n - 1], views[n - 1], dir_cull)
    }
}

fn drawn(mesh: &SectionMesh, view: &InView, dir_cull: bool, d: usize) -> (n: u64)
    requires
        d < 6,
    ensures
        n == drawn_of(*mesh, *view, dir_cull, d as int),
        n <= u32::MAX,
{
    if view.inside && (!dir_cull || view.facing[d]) {
        mesh.count[d] as u64
    } else {
        0
    }
}

/// The faces that are drawn: of each section in view, those of the directions that may face
/// the camera, or of all where directions are not culled.
pub fn visible_faces(meshes: &Vec<SectionMesh>, views: &Vec<InView>, dir_cull: bool) -> (total: u64)
    requires
        meshes@.len() == views@.len(),
        meshes@.len() <= u32::MAX / 6,
    ensures
        total == drawn_total(meshes@, views@, dir_cull, meshes@.len() as int),
{
    let mut total: u64 = 0;
    let mut s: usize = 0;
    while s < meshes.len()
        invariant
            s <= meshes@.len(),
            meshes@.len() == views@.len(),
            meshes@.len() <= u32::MAX / 6,
            total == drawn_total(meshes@, views@, dir_cull, s as int),
            total <= s * (6 * u32::MAX),
        decreases meshes@.len() - s,
    {
        let mesh = &meshes[s];
        let view = &views[s];
        let here = drawn(mesh, view, dir_cull, 0) + drawn(mesh, view, dir_cull, 1) + drawn(mesh, view, dir_cull, 2) + drawn(
            mesh,
            view,
            dir_cull,
            3,
        ) + drawn(mesh, view, dir_cull, 4) + drawn(mesh, view, dir_cull, 5);
        assert((s + 1) * (6 * u32::MAX) == s * (6 * u32::MAX) + 6 * u32::MAX) by (nonlinear_arith);
        assert(s * (6 * u32::MAX) <= 715827882 * (6 * u32::MAX)) by (nonlinear_arith)
            requires
                s <= 715827882,
        ;
        total = total + here;
        s += 1;
    }
    total
}

} // verus!
