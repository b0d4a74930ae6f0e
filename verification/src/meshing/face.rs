//! The packed face: 8 bytes, two `u32`s.
//!
//! ```text
//! word 0: bits  0-3  x in section        word 1: bits  0-15 block state
//!         bits  4-7  y in section                bits 16-31 model quad index
//!         bits  8-11 z in section
//!         bits 12-14 direction
//!         bits 15-18 width - 1 along the face's u axis
//!         bits 19-22 height - 1 along the face's v axis
//!         bits 23-31 reserved, 0
//! ```
//!
//! Directions are 0 -X, 1 +X, 2 -Y, 3 +Y, 4 -Z, 5 +Z. For a positive direction the face
//! lies on the block's far side along the axis.
use vstd::prelude::*;

pub use crate::voxel::shape::DIR_STEP;

verus! {

/// First tangent axis of each direction: 0 x, 1 y, 2 z.
pub const DIR_U: [usize; 6] = [2, 1, 0, 2, 1, 0];

/// Second tangent axis of each direction, so that the cross product points outward.
pub const DIR_V: [usize; 6] = [1, 2, 2, 0, 0, 1];

/// A face of a block of a section.
#[derive(Clone, Copy, Debug, PartialEq, Eq, PartialOrd, Ord, Hash)]
pub struct Face {
    pub pos: [u8; 3],
    pub dir: u8,
    pub w: u8,
    pub h: u8,
    pub state: u16,
    pub quad: u16,
}

/// The first word of a packed face.
pub open spec fn word_a(x: u8, y: u8, z: u8, dir: u8, w1: u8, h1: u8) -> u32 {
    (x as u32) | ((y as u32) << 4) | ((z as u32) << 8) | ((dir as u32) << 12) | ((w1 as u32) << 15) | ((h1 as u32) << 19)
}

/// The second word of a packed face.
pub open spec fn word_b(state: u16, quad: u16) -> u32 {
    (state as u32) | ((quad as u32) << 16)
}

/// Four bits of a word.
pub open spec fn nibble(a: u32, shift: u32) -> u8 {
    ((a >> shift) & 15) as u8
}

impl Face {
    /// The fields fit their bits.
    pub open spec fn fits(self) -> bool {
        &&& self.pos[0] < 16
        &&& self.pos[1] < 16
        &&& self.pos[2] < 16
        &&& self.dir < 8
        &&& 1 <= self.w <= 16
        &&& 1 <= self.h <= 16
    }

    /// The words of the packed face.
    pub open spec fn packed(self) -> (u32, u32) {
        (
            word_a(
                self.pos[0],
                self.pos[1],
                self.pos[2],
                self.dir,
                (self.w - 1) as u8,
                (self.h - 1) as u8,
            ),
            word_b(self.state, self.quad),
        )
    }

    /// The face that two words hold.
    pub open spec fn unpacked(a: u32, b: u32) -> Face {
        Face {
            pos: [nibble(a, 0), nibble(a, 4), nibble(a, 8)],
            dir: ((a >> 12) & 7) as u8,
            w: (nibble(a, 15) + 1) as u8,
            h: (nibble(a, 19) + 1) as u8,
            state: (b & 0xFFFF) as u16,
            quad: (b >> 16) as u16,
        }
    }

    /// A face of one block.
    pub fn unit(pos: [u8; 3], dir: u8, state: u16) -> (f: Face)
        ensures
            f == (Face { pos, dir, w: 1, h: 1, state, quad: 0 }),
    {
        Face { pos, dir, w: 1, h: 1, state, quad: 0 }
    }

    /// The face as two words.
    pub fn pack(self) -> (words: [u32; 2])
        requires
            self.w >= 1,
            self.h >= 1,
        ensures
            words[0] == self.packed().0,
            words[1] == self.packed().1,
    {
        let a = (self.pos[0] as u32) | ((self.pos[1] as u32) << 4) | ((self.pos[2] as u32) << 8) | ((self.dir as u32) << 12) | (((
        self.w - 1) as u32) << 15) | (((self.h - 1) as u32) << 19);
        [a, (self.state as u32) | ((self.quad as u32) << 16)]
    }

    /// The face that two words hold. The reserved bits must be clear.
    pub fn unpack(words: [u32; 2]) -> (f: Face)
        requires
            words[0] >> 23 == 0,
        ensures
            f == Face::unpacked(words[0], words[1]),
            f.fits(),
    {
        let a = words[0];
        let b = words[1];
        assert((a >> 0) & 15 < 16 && (a >> 4) & 15 < 16 && (a >> 8) & 15 < 16 && (a >> 12) & 7 < 8 && (a >> 15) & 15 < 16 && (a
            >> 19) & 15 < 16) by (bit_vector);
        let f = Face {
            pos: [((a >> 0) & 15) as u8, ((a >> 4) & 15) as u8, ((a >> 8) & 15) as u8],
            dir: ((a >> 12) & 7) as u8,
            w: ((a >> 15) & 15) as u8 + 1,
            h: ((a >> 19) & 15) as u8 + 1,
            state: (b & 0xFFFF) as u16,
            quad: (b >> 16) as u16,
        };
        proof {
            let want = Face::unpacked(a, b);
            assert(f.pos@ =~= want.pos@);
            assert(f.pos =~= want.pos);
        }
        f
    }

    /// The face lies in its section: its rectangle ends within the 16 cells of each axis.
    pub open spec fn in_section(self) -> bool {
        &&& self.fits()
        &&& self.dir < 6
        &&& self.pos[DIR_U[self.dir as int] as int] + self.w <= 16
        &&& self.pos[DIR_V[self.dir as int] as int] + self.h <= 16
    }

    /// `c` is the `du`th unit face of the `dv`th row that the face covers.
    pub open spec fn is_cell(self, du: int, dv: int, c: Face) -> bool {
        let u = DIR_U[self.dir as int] as int;
        let v = DIR_V[self.dir as int] as int;
        &&& forall|a: int|
            0 <= a < 3 ==> #[trigger] c.pos[a] == self.pos[a] + (if a == u {
                du
            } else {
                0
            }) + (if a == v {
                dv
            } else {
                0
            })
        &&& c.dir == self.dir
        &&& c.w == 1
        &&& c.h == 1
        &&& c.state == self.state
        &&& c.quad == self.quad
    }

    /// `c` is one of the unit faces that the face covers.
    pub open spec fn covers(self, c: Face) -> bool {
        let u = DIR_U[self.dir as int] as int;
        let v = DIR_V[self.dir as int] as int;
        let du = c.pos[u] - self.pos[u];
        let dv = c.pos[v] - self.pos[v];
        0 <= du < self.w && 0 <= dv < self.h && self.is_cell(du, dv, c)
    }

    /// The unit faces that a merged face covers, row by row.
    pub fn cells(self) -> (out: Vec<Face>)
        requires
            self.in_section(),
        ensures
            out@.len() == self.w * self.h,
            forall|k: int|
                0 <= k < out@.len() ==> self.is_cell(k % (self.w as int), k / (self.w as int), #[trigger] out@[k]),
            forall|c: Face| #[trigger] out@.contains(c) <==> self.covers(c),
    {
        let d = self.dir as usize;
        let (u, v) = (DIR_U[d], DIR_V[d]);
        assert(u < 3 && v < 3 && u != v);
        let mut out: Vec<Face> = Vec::new();
        let mut dv: u8 = 0;
        while dv < self.h
            invariant
                dv <= self.h,
                self.in_section(),
                d == self.dir,
                u == DIR_U[d as int],
                v == DIR_V[d as int],
                u < 3,
                v < 3,
                u != v,
                out@.len() == self.w * dv,
                forall|k: int|
                    0 <= k < out@.len() ==> self.is_cell(k % (self.w as int), k / (self.w as int), #[trigger] out@[k]),
            decreases self.h - dv,
        {
            let mut du: u8 = 0;
            while du < self.w
                invariant
                    du <= self.w,
                    dv < self.h,
                    self.in_section(),
                    d == self.dir,
                    u == DIR_U[d as int],
                    v == DIR_V[d as int],
                    u < 3,
                    v < 3,
                    u != v,
                    out@.len() == self.w * dv + du,
                    forall|k: int|
                        0 <= k < out@.len() ==> self.is_cell(k % (self.w as int), k / (self.w as int), #[trigger] out@[k]),
                decreases self.w - du,
            {
                let mut pos = self.pos;
                pos[u] = pos[u] + du;
                pos[v] = pos[v] + dv;
                let c = Face { pos, dir: self.dir, w: 1, h: 1, state: self.state, quad: self.quad };
                proof {
                    let k = out@.len() as int;
                    assert(self.w * dv == dv * self.w) by (nonlinear_arith);
                    vstd::arithmetic::div_mod::lemma_fundamental_div_mod_converse(
                        k,
                        self.w as int,
                        dv as int,
                        du as int,
                    );
                    assert(self.is_cell(du as int, dv as int, c));
                }
                out.push(c);
                du += 1;
            }
            assert(self.w * dv + self.w == self.w * (dv + 1)) by (nonlinear_arith);
            dv += 1;
        }
        proof {
            assert forall|c: Face| #[trigger] out@.contains(c) <==> self.covers(c) by {
                if out@.contains(c) {
                    let k = out@.index_of(c);
                    rows_and_columns(k, self.w as int, self.h as int);
                    assert(self.is_cell(k % (self.w as int), k / (self.w as int), out@[k]));
                    assert(c.pos[u as int] == self.pos[u as int] + k % (self.w as int));
                    assert(c.pos[v as int] == self.pos[v as int] + k / (self.w as int));
                }
                if self.covers(c) {
                    let du = c.pos[u as int] - self.pos[u as int];
                    let dv = c.pos[v as int] - self.pos[v as int];
                    let k = dv * self.w + du;
                    row_by_row(dv, du, self.w as int, self.h as int);
                    assert(self.is_cell(du, dv, out@[k]));
                    same_cell(self, du, dv, c, out@[k]);
                }
            }
        }
        out
    }
}

/// The row and the column of a number.
proof fn rows_and_columns(k: int, w: int, h: int)
    requires
        0 <= k < w * h,
        0 < w,
    ensures
        0 <= k % w < w,
        0 <= k / w < h,
{
    vstd::arithmetic::div_mod::lemma_fundamental_div_mod(k, w);
    assert(0 <= k / w < h) by (nonlinear_arith)
        requires
            0 <= k < w * h,
            0 < w,
            k == w * (k / w) + k % w,
            0 <= k % w < w,
    ;
}

/// The number of a row and a column.
proof fn row_by_row(v: int, u: int, w: int, h: int)
    requires
        0 <= u < w,
        0 <= v < h,
    ensures
        0 <= v * w + u < w * h,
        (v * w + u) % w == u,
        (v * w + u) / w == v,
{
    vstd::arithmetic::div_mod::lemma_fundamental_div_mod_converse(v * w + u, w, v, u);
    assert(0 <= v * w + u < w * h) by (nonlinear_arith)
        requires
            0 <= u < w,
            0 <= v,
            v + 1 <= h,
    ;
}

/// A face has one unit face in each place.
pub proof fn same_cell(f: Face, du: int, dv: int, a: Face, b: Face)
    requires
        f.is_cell(du, dv, a),
        f.is_cell(du, dv, b),
    ensures
        a == b,
{
    assert(a.pos@ =~= b.pos@) by {
        assert forall|i: int| 0 <= i < 3 implies a.pos@[i] == b.pos@[i] by {
            assert(a.pos[i] == b.pos[i]);
        }
    }
    assert(a.pos =~= b.pos);
}

/// Unpacking gives back what was packed, and packing leaves the reserved bits clear.
pub proof fn pack_then_unpack(f: Face)
    requires
        f.fits(),
    ensures
        Face::unpacked(f.packed().0, f.packed().1) == f,
        f.packed().0 >> 23 == 0,
{
    let (x, y, z) = (f.pos[0], f.pos[1], f.pos[2]);
    let (d, w, h) = (f.dir, (f.w - 1) as u8, (f.h - 1) as u8);
    let (s, q) = (f.state, f.quad);
    assert({
        let a = (x as u32) | ((y as u32) << 4) | ((z as u32) << 8) | ((d as u32) << 12) | ((w as u32) << 15) | ((h as u32) << 19);
        let b = (s as u32) | ((q as u32) << 16);
        &&& x == ((a >> 0) & 15) as u8
        &&& y == ((a >> 4) & 15) as u8
        &&& z == ((a >> 8) & 15) as u8
        &&& d == ((a >> 12) & 7) as u8
        &&& w == ((a >> 15) & 15) as u8
        &&& h == ((a >> 19) & 15) as u8
        &&& s == (b & 0xFFFF) as u16
        &&& q == (b >> 16) as u16
        &&& a >> 23 == 0
    }) by (bit_vector)
        requires
            x < 16,
            y < 16,
            z < 16,
            d < 8,
            w < 16,
            h < 16,
    ;
    let g = Face::unpacked(f.packed().0, f.packed().1);
    assert(g.pos@ =~= f.pos@);
    assert(g.pos =~= f.pos);
}

} // verus!
