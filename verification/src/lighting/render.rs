//! What drawing a lit frame is told.
use vstd::prelude::*;

use crate::voxel::frames::{chunk16_capacity, room_for_chunks, FrameRing};

verus! {

/// The bytes of a frame's slot: the uniforms of the opaque pass, those of the water pass
/// from [`WATER_OFFSET`] on, and the draw arguments from [`ARGS_OFFSET`] on.
pub const SLOT_BYTES: usize = 2304;

pub const WATER_OFFSET: usize = 1024;

pub const ARGS_OFFSET: usize = 2048;

/// Faces per instance: 16.
pub const CHUNK_SHIFT: u32 = 4;

/// What a renderer keeps between frames.
pub struct Renderer {
    pub section_count: usize,
    pub chunk_capacity: usize,
    pub ring: FrameRing,
}

impl Renderer {
    /// A renderer of so many sections, of a mesher that can hold `max_faces` faces.
    pub fn new(section_count: usize, max_faces: usize) -> (r: Renderer)
        requires
            room_for_chunks(max_faces as int, section_count as int, 16) <= usize::MAX,
        ensures
            r.section_count == section_count,
            r.chunk_capacity == room_for_chunks(max_faces as int, section_count as int, 16),
            r.ring.slot_bytes == SLOT_BYTES,
            r.ring.frame == 0,
            r.ring.wf(),
    {
        Renderer {
            section_count,
            chunk_capacity: chunk16_capacity(max_faces, section_count),
            ring: FrameRing::new(SLOT_BYTES),
        }
    }

    /// The draw arguments that a frame starts with: the indices of an instance, and a count
    /// of none.
    pub fn args_words() -> (words: [u32; 5])
        ensures
            words[0] == 96,
            words[1] == 0,
            words[2] == 0,
            words[3] == 0,
            words[4] == 0,
    {
        assert(6u32 << 4u32 == 96) by (bit_vector);
        [6u32 << CHUNK_SHIFT, 0, 0, 0, 0]
    }

    /// Where the count of the last frame's instances is, in bytes of the ring.
    pub fn last_count_byte(&self) -> (at: usize)
        requires
            self.ring.slot_bytes == SLOT_BYTES,
            self.ring.frame <= usize::MAX - 3,
        ensures
            at == ((self.ring.frame + 2) % 3) * 2304 + 2052,
    {
        self.ring.last() + ARGS_OFFSET + 4
    }
}

/// A culling pass: the sections, the chunks and the room for them that it is told, where in
/// the ring its uniforms are and its count goes, and the groups of threads.
#[derive(Clone, Copy, Debug, PartialEq, Eq, Structural)]
pub struct CullPass {
    pub section_count: u32,
    pub chunk_shift: u32,
    pub chunk_capacity: u32,
    pub uniforms_at: usize,
    pub args_at: usize,
    pub groups: usize,
    pub threads: usize,
}

/// A draw of every chunk that was kept: where in the ring its uniforms and its arguments are,
/// and whether it is of water, which is blended, and hides nothing behind it.
#[derive(Clone, Copy, Debug, PartialEq, Eq, Structural)]
pub struct Draw {
    pub uniforms_at: usize,
    pub args_at: usize,
    pub water: bool,
}

/// The culling pass of a frame.
pub open spec fn cull_pass(r: &Renderer, slot: usize) -> CullPass {
    CullPass {
        section_count: r.section_count as u32,
        chunk_shift: 4,
        chunk_capacity: r.chunk_capacity as u32,
        uniforms_at: slot,
        args_at: (slot + 2048) as usize,
        groups: ((r.section_count + 63) / 64) as usize,
        threads: 64,
    }
}

/// The draws of a frame: what is opaque, and after it the water.
pub open spec fn draws(slot: usize, water: bool) -> Seq<Draw> {
    let opaque = Draw { uniforms_at: slot, args_at: (slot + 2048) as usize, water: false };
    if water {
        seq![opaque, Draw { uniforms_at: (slot + 1024) as usize, args_at: (slot + 2048) as usize, water: true }]
    } else {
        seq![opaque]
    }
}

/// A frame: where its uniforms are written, and again for the water, where its draw arguments
/// are, what they start as, and its passes.
#[derive(Debug)]
pub struct FramePlan {
    pub uniforms_at: usize,
    pub water_at: usize,
    pub args_at: usize,
    pub args: [u32; 5],
    pub cull: CullPass,
    pub draws: Vec<Draw>,
}

impl Renderer {
    /// The sizes fit what the passes are told them in.
    pub open spec fn fits(&self) -> bool {
        &&& self.section_count <= u32::MAX
        &&& self.section_count <= usize::MAX - 63
        &&& self.chunk_capacity <= u32::MAX
    }

    /// The culling pass of a frame whose slot begins at `slot`.
    pub fn encode_cull(&self, slot: usize) -> (pass: CullPass)
        requires
            self.fits(),
            slot <= usize::MAX - 2048,
        ensures
            pass == cull_pass(self, slot),
    {
        CullPass {
            section_count: self.section_count as u32,
            chunk_shift: CHUNK_SHIFT,
            chunk_capacity: self.chunk_capacity as u32,
            uniforms_at: slot,
            args_at: slot + ARGS_OFFSET,
            groups: (self.section_count + 63) / 64,
            threads: 64,
        }
    }

    /// The draws of a frame whose slot begins at `slot`.
    pub fn encode_draw(slot: usize, water: bool) -> (out: Vec<Draw>)
        requires
            slot <= usize::MAX - 2048,
        ensures
            out@ == draws(slot, water),
    {
        let mut out: Vec<Draw> = vec![Draw { uniforms_at: slot, args_at: slot + ARGS_OFFSET, water: false }];
        if water {
            out.push(Draw { uniforms_at: slot + WATER_OFFSET, args_at: slot + ARGS_OFFSET, water: true });
        }
        assert(out@ =~= draws(slot, water));
        out
    }

    /// The next frame: its slot of the ring, what is written there, and its passes.
    pub fn encode_frame(&mut self, water: bool) -> (plan: FramePlan)
        requires
            old(self).fits(),
            old(self).ring.slot_bytes == SLOT_BYTES,
            old(self).ring.frame < usize::MAX,
        ensures
            final(self).section_count == old(self).section_count,
            final(self).chunk_capacity == old(self).chunk_capacity,
            final(self).ring.slot_bytes == SLOT_BYTES,
            final(self).ring.frame == old(self).ring.frame + 1,
            plan.uniforms_at == (old(self).ring.frame % 3) * 2304,
            plan.water_at == plan.uniforms_at + 1024,
            plan.args_at == plan.uniforms_at + 2048,
            plan.args@ == seq![96u32, 0, 0, 0, 0],
            plan.cull == cull_pass(old(self), plan.uniforms_at),
            plan.draws@ == draws(plan.uniforms_at, water),
    {
        let slot = self.ring.advance();
        let args = Renderer::args_words();
        assert(args@ =~= seq![96u32, 0, 0, 0, 0]);
        FramePlan {
            uniforms_at: slot,
            water_at: slot + WATER_OFFSET,
            args_at: slot + ARGS_OFFSET,
            args,
            cull: self.encode_cull(slot),
            draws: Renderer::encode_draw(slot, water),
        }
    }
}

/// A frame is drawn from what its culling found: every draw takes as many instances as the
/// culling counted, and the water comes last, with the uniforms that were written for it.
pub proof fn a_frame_draws_what_it_kept(r: &Renderer, slot: usize, water: bool)
    requires
        r.fits(),
        slot <= usize::MAX - 2048,
    ensures
        forall|i: int|
            0 <= i < draws(slot, water).len() ==> {
                let d = #[trigger] draws(slot, water)[i];
                &&& d.args_at == cull_pass(r, slot).args_at
                &&& d.water == (i == 1)
                &&& d.uniforms_at == slot + (if d.water {
                    1024int
                } else {
                    0
                })
            },
        draws(slot, water).len() == (if water {
            2nat
        } else {
            1
        }),
        cull_pass(r, slot).groups * 64 >= r.section_count,
{
}

} // verus!
