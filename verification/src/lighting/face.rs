//! The packed face: 8 bytes, two `u32`s.
//!
//! ```text
//! word 0: bits  0-3  x in section        word 1: bits  0-15 block state
//!         bits  4-7  y in section                bits 16-31 model quad index
//!         bits  8-11 z in section
//!         bits 12-14 direction
//!         bits 15-18 width - 1, bits 19-22 height - 1
//!         bits 23-30 ambient occlusion, 2 bits per corner (cu, cv) at
//!                    23 + 2 * (cu + 2 * cv); 0 open, 3 darkest
//!         bit  31    reserved, 0
//! ```
//!
//! Directions are 0 -X, 1 +X, 2 -Y, 3 +Y, 4 -Z, 5 +Z. Light is not in the face: it is
//! read from the light volume when drawing.
use vstd::prelude::*;

pub use crate::voxel::shape::DIR_STEP;

verus! {

/// First tangent axis of each direction: 0 x, 1 y, 2 z.
pub const DIR_U: [usize; 6] = [2, 1, 0, 2, 1, 0];

/// Second tangent axis of each direction, so that the cross product points outward.
pub const DIR_V: [usize; 6] = [1, 2, 2, 0, 0, 1];

/// A face of a block of a section.
#[derive(Clone, Copy, Debug, PartialEq, Eq, PartialOrd, Ord, Hash)]
pub struct Face {
    pub pos: [u8; 3],
    pub dir: u8,
    pub w: u8,
    pub h: u8,
    pub ao: u8,
    pub state: u16,
    pub quad: u16,
}

/// The first word of a packed face.
pub open spec fn word_a(x: u8, y: u8, z: u8, dir: u8, w1: u8, h1: u8, ao: u8) -> u32 {
    (x as u32) | ((y as u32) << 4) | ((z as u32) << 8) | ((dir as u32) << 12) | ((w1 as u32) << 15) | ((h1 as u32) << 19) | ((
    ao as u32) << 23)
}

/// The second word of a packed face.
pub open spec fn word_b(state: u16, quad: u16) -> u32 {
    (state as u32) | ((quad as u32) << 16)
}

/// Four bits of a word.
pub open spec fn nibble(a: u32, shift: u32) -> u8 {
    ((a >> shift) & 15) as u8
}

impl Face {
    /// The fields fit their bits.
    pub open spec fn fits(self) -> bool {
        &&& self.pos[0] < 16
        &&& self.pos[1] < 16
        &&& self.pos[2] < 16
        &&& self.dir < 8
        &&& 1 <= self.w <= 16
        &&& 1 <= self.h <= 16
    }

    /// The words of the packed face.
    pub open spec fn packed(self) -> (u32, u32) {
        (
            word_a(
                self.pos[0],
                self.pos[1],
                self.pos[2],
                self.dir,
                (self.w - 1) as u8,
                (self.h - 1) as u8,
                self.ao,
            ),
            word_b(self.state, self.quad),
        )
    }

    /// The face that two words hold.
    pub open spec fn unpacked(a: u32, b: u32) -> Face {
        Face {
            pos: [nibble(a, 0), nibble(a, 4), nibble(a, 8)],
            dir: ((a >> 12) & 7) as u8,
            w: (nibble(a, 15) + 1) as u8,
            h: (nibble(a, 19) + 1) as u8,
            ao: ((a >> 23) & 0xFF) as u8,
            state: (b & 0xFFFF) as u16,
            quad: (b >> 16) as u16,
        }
    }

    /// A face of one block.
    pub fn unit(pos: [u8; 3], dir: u8, ao: u8, state: u16) -> (f: Face)
        ensures
            f == (Face { pos, dir, w: 1, h: 1, ao, state, quad: 0 }),
    {
        Face { pos, dir, w: 1, h: 1, ao, state, quad: 0 }
    }

    /// The face as two words.
    pub fn pack(self) -> (words: [u32; 2])
        requires
            self.w >= 1,
            self.h >= 1,
        ensures
            words[0] == self.packed().0,
            words[1] == self.packed().1,
    {
        let a = (self.pos[0] as u32) | ((self.pos[1] as u32) << 4) | ((self.pos[2] as u32) << 8) | ((self.dir as u32) << 12) | (((
        self.w - 1) as u32) << 15) | (((self.h - 1) as u32) << 19) | ((self.ao as u32) << 23);
        [a, (self.state as u32) | ((self.quad as u32) << 16)]
    }

    /// The face that two words hold. The reserved bit must be clear.
    pub fn unpack(words: [u32; 2]) -> (f: Face)
        requires
            words[0] >> 31 == 0,
        ensures
            f == Face::unpacked(words[0], words[1]),
            f.fits(),
    {
        let a = words[0];
        let b = words[1];
        assert((a >> 0) & 15 < 16 && (a >> 4) & 15 < 16 && (a >> 8) & 15 < 16 && (a >> 12) & 7 < 8 && (a >> 15) & 15 < 16 && (a
            >> 19) & 15 < 16) by (bit_vector);
        let f = Face {
            pos: [((a >> 0) & 15) as u8, ((a >> 4) & 15) as u8, ((a >> 8) & 15) as u8],
            dir: ((a >> 12) & 7) as u8,
            w: ((a >> 15) & 15) as u8 + 1,
            h: ((a >> 19) & 15) as u8 + 1,
            ao: ((a >> 23) & 0xFF) as u8,
            state: (b & 0xFFFF) as u16,
            quad: (b >> 16) as u16,
        };
        proof {
            let want = Face::unpacked(a, b);
            assert(f.pos@ =~= want.pos@);
            assert(f.pos =~= want.pos);
        }
        f
    }
}

/// Unpacking gives back what was packed, and packing leaves the reserved bit clear.
pub proof fn pack_then_unpack(f: Face)
    requires
        f.fits(),
    ensures
        Face::unpacked(f.packed().0, f.packed().1) == f,
        f.packed().0 >> 31 == 0,
{
    let (x, y, z) = (f.pos[0], f.pos[1], f.pos[2]);
    let (d, w, h, ao) = (f.dir, (f.w - 1) as u8, (f.h - 1) as u8, f.ao);
    let (s, q) = (f.state, f.quad);
    assert({
        let a = (x as u32) | ((y as u32) << 4) | ((z as u32) << 8) | ((d as u32) << 12) | ((w as u32) << 15) | ((h as u32) << 19) | ((
        ao as u32) << 23);
        let b = (s as u32) | ((q as u32) << 16);
        &&& x == ((a >> 0) & 15) as u8
        &&& y == ((a >> 4) & 15) as u8
        &&& z == ((a >> 8) & 15) as u8
        &&& d == ((a >> 12) & 7) as u8
        &&& w == ((a >> 15) & 15) as u8
        &&& h == ((a >> 19) & 15) as u8
        &&& ao == ((a >> 23) & 0xFF) as u8
        &&& s == (b & 0xFFFF) as u16
        &&& q == (b >> 16) as u16
        &&& a >> 31 == 0
    }) by (bit_vector)
        requires
            x < 16,
            y < 16,
            z < 16,
            d < 8,
            w < 16,
            h < 16,
    ;
    let g = Face::unpacked(f.packed().0, f.packed().1);
    assert(g.pos@ =~= f.pos@);
    assert(g.pos =~= f.pos);
}

} // verus!
