//! Block storage, block types and the visible-face rules.
//!
//! Blocks are `u16` block states. Outside the world is air.
use vstd::prelude::*;

use crate::lighting::world::{bit, cells_of, hiders, sections_of, sides_are_positive};
use crate::meshing::gpu_types::{SectionInfo, NONE};
use crate::voxel::ground::{column_height, ground_at, ground_height, layer_at, Ground};
use crate::voxel::shape::{Pos, Shape};

verus! {

pub const AIR: u16 = 0;

pub const STONE: u16 = 1;

pub const DIRT: u16 = 2;

pub const GRASS: u16 = 3;

pub const SAND: u16 = 4;

pub const SNOW: u16 = 5;

pub const GLASS: u16 = 6;

pub const LEAVES: u16 = 7;

pub const BLOCK_TYPES: usize = 8;

/// Cull classes. The rule table is class by class, not state by state: a game has
/// tens of thousands of block states.
pub const CLASS_AIR: u8 = 0;

pub const CLASS_OPAQUE: u8 = 1;

pub const CLASS_GLASS: u8 = 2;

pub const CLASS_LEAVES: u8 = 3;

/// Which faces show.
pub struct Rules {
    /// Cull class of every possible block state.
    pub state_class: Vec<u8>,
    /// Bit `b` of entry `a`: a face of class `a` is hidden by a neighbour of class
    /// `b`.
    pub hides: Vec<u32>,
}

/// The class that the standard rules give a state.
pub open spec fn standard_class(s: u16) -> u8 {
    if s == AIR {
        CLASS_AIR
    } else if s == GLASS {
        CLASS_GLASS
    } else if s == LEAVES {
        CLASS_LEAVES
    } else {
        CLASS_OPAQUE
    }
}

/// The standard rules hide a face of class `a` behind class `b`: opaque hides every
/// face, and glass hides glass.
pub open spec fn standard_hides(a: u8, b: u8) -> bool {
    a != CLASS_AIR && a <= CLASS_LEAVES && (b == CLASS_OPAQUE || (a == CLASS_GLASS && b == CLASS_GLASS))
}

impl Rules {
    /// Every state has a class, and every class has hiders.
    pub open spec fn wf(&self) -> bool {
        &&& self.state_class@.len() == 65536
        &&& self.hides@.len() == 32
        &&& forall|s: int| 0 <= s < 65536 ==> #[trigger] self.state_class@[s] < 32
    }

    /// The class of a state.
    pub open spec fn class(&self, s: u16) -> u8 {
        self.state_class@[s as int]
    }

    /// A face of state `a` shows against a neighbour of state `b`.
    pub open spec fn shows(&self, a: u16, b: u16) -> bool {
        a != AIR && !bit(self.hides@[self.class(a) as int], self.class(b))
    }

    /// These are the standard rules.
    pub open spec fn is_standard(&self) -> bool {
        &&& self.wf()
        &&& forall|s: u16| #[trigger] self.class(s) == standard_class(s)
        &&& forall|a: int, b: u8|
            0 <= a < 32 && b < 32 ==> #[trigger] bit(self.hides@[a], b) == standard_hides(a as u8, b)
    }

    /// The standard rules.
    pub fn standard() -> (rules: Rules)
        ensures
            rules.is_standard(),
    {
        let mut state_class: Vec<u8> = Vec::new();
        let mut s: u32 = 0;
        while s < 65536
            invariant
                s <= 65536,
                state_class@.len() == s,
                forall|i: int| 0 <= i < s ==> #[trigger] state_class@[i] == standard_class(i as u16),
            decreases 65536 - s,
        {
            let state = s as u16;
            let class = if state == AIR {
                CLASS_AIR
            } else if state == GLASS {
                CLASS_GLASS
            } else if state == LEAVES {
                CLASS_LEAVES
            } else {
                CLASS_OPAQUE
            };
            state_class.push(class);
            s += 1;
        }
        // Opaque hides everything's face. Glass also hides glass. Leaves hide
        // nothing, so leaves show every face, even against leaves.
        let mut hides: Vec<u32> = Vec::new();
        let mut a: u8 = 0;
        while a < 32
            invariant
                a <= 32,
                hides@.len() == a,
                forall|i: int, b: u8| 0 <= i < a && b < 32 ==> #[trigger] bit(hides@[i], b) == standard_hides(i as u8, b),
            decreases 32 - a,
        {
            let w: u32 = if a == CLASS_OPAQUE || a == CLASS_LEAVES {
                2
            } else if a == CLASS_GLASS {
                6
            } else {
                0
            };
            proof {
                hiders(w);
            }
            hides.push(w);
            a += 1;
        }
        Rules { state_class, hides }
    }

    /// Whether a face of state `a` shows against a neighbour of state `b`.
    pub fn visible(&self, a: u16, b: u16) -> (shows: bool)
        requires
            self.wf(),
        ensures
            shows == self.shows(a, b),
    {
        let ca = self.state_class[a as usize];
        let cb = self.state_class[b as usize];
        a != AIR && (self.hides[ca as usize] >> cb) & 1 == 0
    }
}

/// By the standard rules, a face that is not air's shows unless its neighbour is
/// opaque, or both are glass.
pub proof fn standard_faces(rules: &Rules, a: u16, b: u16)
    requires
        rules.is_standard(),
    ensures
        rules.shows(a, b) <==> a != AIR && standard_class(b) != CLASS_OPAQUE && !(a == GLASS && b == GLASS),
{
    let ca = rules.class(a);
    let cb = rules.class(b);
    assert(ca == standard_class(a) && cb == standard_class(b));
    assert(bit(rules.hides@[ca as int], cb) == standard_hides(ca, cb));
}

/// Blocks, section by section.
#[derive(Clone)]
pub struct World {
    /// Size in sections.
    pub nx: usize,
    pub ny: usize,
    pub nz: usize,
    pub blocks: Vec<u16>,
}

/// The section beside the one at `c` that the block at `p` borders along an axis.
pub open spec fn bordered(sh: Shape, p: Pos, axis: int) -> Option<Pos> {
    let c = sh.section_pos_of(p);
    let (a, n, low, high) = if axis == 0 {
        (p.x, sh.nx, Pos { x: c.x - 1, ..c }, Pos { x: c.x + 1, ..c })
    } else if axis == 1 {
        (p.y, sh.ny, Pos { y: c.y - 1, ..c }, Pos { y: c.y + 1, ..c })
    } else {
        (p.z, sh.nz, Pos { z: c.z - 1, ..c }, Pos { z: c.z + 1, ..c })
    };
    if a % 16 == 0 && a / 16 > 0 {
        Some(low)
    } else if a % 16 == 15 && a / 16 + 1 < n {
        Some(high)
    } else {
        None
    }
}

/// The section of the block at `p`, and those beside it that the block borders along
/// the first `n` axes.
pub open spec fn touched(sh: Shape, p: Pos, n: int) -> Seq<u32>
    decreases n,
{
    if n <= 0 {
        seq![sh.section_of(p) as u32]
    } else {
        match bordered(sh, p, n - 1) {
            Some(c) => touched(sh, p, n - 1).push(sh.section(c) as u32),
            None => touched(sh, p, n - 1),
        }
    }
}

impl World {
    /// The size.
    pub open spec fn shape(&self) -> Shape {
        Shape { nx: self.nx as int, ny: self.ny as int, nz: self.nz as int }
    }

    /// There is one block for each cell, and coordinates and section numbers fit
    /// their types.
    pub open spec fn wf(&self) -> bool {
        &&& self.blocks@.len() == self.shape().count()
        &&& self.shape().sections() <= u32::MAX
        &&& self.nx * 16 <= i32::MAX
        &&& self.ny * 16 <= i32::MAX
        &&& self.nz * 16 <= i32::MAX
    }

    /// The block at a position; air outside the world.
    pub open spec fn at(&self, p: Pos) -> u16 {
        if self.shape().has(p) {
            self.blocks@[self.shape().place(p)]
        } else {
            AIR
        }
    }

    /// A world of air.
    pub fn new(nx: usize, ny: usize, nz: usize) -> (world: World)
        requires
            nx * ny * nz * 4096 <= usize::MAX,
            nx * ny * nz <= u32::MAX,
            nx * 16 <= i32::MAX,
            ny * 16 <= i32::MAX,
            nz * 16 <= i32::MAX,
        ensures
            world.wf(),
            world.nx == nx,
            world.ny == ny,
            world.nz == nz,
            forall|p: Pos| world.at(p) == AIR,
    {
        let n = cells_of(nx, ny, nz);
        let blocks: Vec<u16> = vec![AIR; n];
        let world = World { nx, ny, nz, blocks };
        assert forall|p: Pos| world.at(p) == AIR by {
            if world.shape().has(p) {
                world.shape().place_round_trip(p);
            }
        }
        world
    }

    /// The number of sections.
    pub fn section_count(&self) -> (n: usize)
        requires
            self.wf(),
        ensures
            n == self.shape().sections(),
    {
        sections_of(self.nx, self.ny, self.nz)
    }

    /// The size in blocks.
    pub fn size_blocks(&self) -> (size: [usize; 3])
        requires
            self.wf(),
        ensures
            size[0] == self.nx * 16,
            size[1] == self.ny * 16,
            size[2] == self.nz * 16,
    {
        [self.nx * 16, self.ny * 16, self.nz * 16]
    }

    /// The number of the section with these coordinates.
    pub fn section_index(&self, sx: usize, sy: usize, sz: usize) -> (s: usize)
        requires
            sz + self.nz * sy <= usize::MAX,
            sx + self.nx * (sz + self.nz * sy) <= usize::MAX,
        ensures
            s == self.shape().section(Pos { x: sx as int, y: sy as int, z: sz as int }),
    {
        proof {
            reveal(Shape::section);
        }
        assert(self.nz * sy >= 0) by (nonlinear_arith);
        assert(self.nx * (sz + self.nz * sy) >= 0) by (nonlinear_arith)
            requires
                sz + self.nz * sy >= 0,
        ;
        sx + self.nx * (sz + self.nz * sy)
    }

    /// The coordinates of a section.
    pub fn section_coords(&self, s: usize) -> (c: [usize; 3])
        requires
            self.wf(),
            s < self.shape().sections(),
        ensures
            c[0] == self.shape().section_pos(s as int).x,
            c[1] == self.shape().section_pos(s as int).y,
            c[2] == self.shape().section_pos(s as int).z,
            c[0] < self.nx,
            c[1] < self.ny,
            c[2] < self.nz,
    {
        proof {
            reveal(Shape::section_pos);
            self.shape().section_pos_round_trip(s as int);
            sides_are_positive(self.nx, self.ny, self.nz);
            assert(self.nx * self.nz <= self.nx * self.ny * self.nz) by (nonlinear_arith)
                requires
                    self.ny >= 1,
            ;
            assert(self.nx * self.nz > 0) by (nonlinear_arith)
                requires
                    self.nx >= 1,
                    self.nz >= 1,
            ;
        }
        [s % self.nx, s / (self.nx * self.nz), (s / self.nx) % self.nz]
    }

    pub proof fn section_number_fits(&self, x: usize, y: usize, z: usize)
        requires
            self.wf(),
            x < self.nx,
            y < self.ny,
            z < self.nz,
        ensures
            z + self.nz * y <= usize::MAX,
            x + self.nx * (z + self.nz * y) <= usize::MAX,
    {
        let c = Pos { x: x as int, y: y as int, z: z as int };
        reveal(Shape::section);
        self.shape().section_round_trip(c);
        let t = z + self.nz * y;
        assert(self.nx * t >= t) by (nonlinear_arith)
            requires
                self.nx >= 1,
                t >= 0,
        ;
    }

    /// Whether a position is in the world.
    fn in_bounds(&self, x: i32, y: i32, z: i32) -> (yes: bool)
        requires
            self.wf(),
        ensures
            yes == self.shape().has(Pos { x: x as int, y: y as int, z: z as int }),
    {
        let size = self.size_blocks();
        x >= 0 && y >= 0 && z >= 0 && (x as usize) < size[0] && (y as usize) < size[1] && (z as usize) < size[2]
    }

    /// Where the block at a position is stored.
    pub fn index(&self, x: usize, y: usize, z: usize) -> (i: usize)
        requires
            self.wf(),
            self.shape().has(Pos { x: x as int, y: y as int, z: z as int }),
        ensures
            i == self.shape().place(Pos { x: x as int, y: y as int, z: z as int }),
            i < self.blocks@.len(),
    {
        let ghost p = Pos { x: x as int, y: y as int, z: z as int };
        proof {
            reveal(Shape::place);
            self.shape().place_round_trip(p);
            self.shape().section_of_block(p);
            self.section_number_fits(x / 16, y / 16, z / 16);
        }
        let s = self.section_index(x / 16, y / 16, z / 16);
        assert(s * 4096 <= self.shape().place(p) < self.blocks.len());
        s * 4096 + (x % 16) + 16 * ((z % 16) + 16 * (y % 16))
    }

    /// The block at a position; air outside the world.
    pub fn get(&self, x: i32, y: i32, z: i32) -> (b: u16)
        requires
            self.wf(),
        ensures
            b == self.at(Pos { x: x as int, y: y as int, z: z as int }),
    {
        if !self.in_bounds(x, y, z) {
            return AIR;
        }
        self.blocks[self.index(x as usize, y as usize, z as usize)]
    }

    /// Changes a block.
    pub fn set(&mut self, x: usize, y: usize, z: usize, b: u16)
        requires
            old(self).wf(),
            old(self).shape().has(Pos { x: x as int, y: y as int, z: z as int }),
        ensures
            final(self).wf(),
            final(self).shape() == old(self).shape(),
            final(self).blocks@ == old(self).blocks@.update(
                old(self).shape().place(Pos { x: x as int, y: y as int, z: z as int }),
                b,
            ),
            forall|q: Pos| #[trigger]
                final(self).at(q) == (if q == (Pos { x: x as int, y: y as int, z: z as int }) {
                    b
                } else {
                    old(self).at(q)
                }),
    {
        let ghost p = Pos { x: x as int, y: y as int, z: z as int };
        let ghost sh = self.shape();
        let i = self.index(x, y, z);
        self.blocks.set(i, b);
        assert forall|q: Pos| #[trigger] self.at(q) == (if q == p {
            b
        } else {
            old(self).at(q)
        }) by {
            if sh.has(q) {
                sh.place_round_trip(q);
                if sh.place(q) == sh.place(p) {
                    sh.places_differ(p, q);
                }
            }
        }
    }

    /// The sections whose mesh can change when the block at a position does: its own,
    /// and each beside it that the block borders.
    pub fn sections_touching(&self, x: usize, y: usize, z: usize) -> (out: Vec<u32>)
        requires
            self.wf(),
            self.shape().has(Pos { x: x as int, y: y as int, z: z as int }),
        ensures
            out@ == touched(self.shape(), Pos { x: x as int, y: y as int, z: z as int }, 3),
    {
        let ghost p = Pos { x: x as int, y: y as int, z: z as int };
        let ghost sh = self.shape();
        let p3 = [x, y, z];
        let limits = [self.nx, self.ny, self.nz];
        proof {
            sh.section_of_block(p);
            self.section_number_fits(x / 16, y / 16, z / 16);
        }
        let mut out: Vec<u32> = Vec::new();
        out.push(self.section_index(x / 16, y / 16, z / 16) as u32);
        assert(out@ =~= touched(sh, p, 0));
        let mut axis: usize = 0;
        while axis < 3
            invariant
                axis <= 3,
                self.wf(),
                sh == self.shape(),
                sh.has(p),
                p == (Pos { x: x as int, y: y as int, z: z as int }),
                p3@ == seq![x, y, z],
                limits@ == seq![self.nx, self.ny, self.nz],
                out@ == touched(sh, p, axis as int),
            decreases 3 - axis,
        {
            let mut q = [x / 16, y / 16, z / 16];
            let a = p3[axis];
            let c = a / 16;
            let found = if a % 16 == 0 && c > 0 {
                q[axis] = c - 1;
                true
            } else if a % 16 == 15 && c + 1 < limits[axis] {
                q[axis] = c + 1;
                true
            } else {
                false
            };
            if found {
                proof {
                    let r = Pos { x: q[0] as int, y: q[1] as int, z: q[2] as int };
                    assert(bordered(sh, p, axis as int) == Some(r));
                    sh.section_round_trip(r);
                    self.section_number_fits(q[0], q[1], q[2]);
                }
                out.push(self.section_index(q[0], q[1], q[2]) as u32);
            }
            axis += 1;
        }
        out
    }

    /// Where each section is, and the number of the section beside it in each direction.
    pub fn section_infos(&self) -> (out: Vec<SectionInfo>)
        requires
            self.wf(),
        ensures
            out@.len() == self.shape().sections(),
            forall|s: int| 0 <= s < out@.len() ==> is_info(self.shape(), s, #[trigger] out@[s]),
    {
        let ghost sh = self.shape();
        let n = self.section_count();
        let limits = [self.nx, self.ny, self.nz];
        let mut out: Vec<SectionInfo> = Vec::new();
        let mut s: usize = 0;
        while s < n
            invariant
                s <= n,
                n == sh.sections(),
                self.wf(),
                sh == self.shape(),
                limits@ == seq![self.nx, self.ny, self.nz],
                out@.len() == s,
                forall|t: int| 0 <= t < out@.len() ==> is_info(sh, t, #[trigger] out@[t]),
            decreases n - s,
        {
            let c = self.section_coords(s);
            let ghost cp = sh.section_pos(s as int);
            let mut neighbour = [NONE; 6];
            let mut d: usize = 0;
            while d < 6
                invariant
                    d <= 6,
                    self.wf(),
                    sh == self.shape(),
                    limits@ == seq![self.nx, self.ny, self.nz],
                    cp == (Pos { x: c[0] as int, y: c[1] as int, z: c[2] as int }),
                    sh.has_section(cp),
                    forall|e: int| 0 <= e < d ==> #[trigger] neighbour[e] == beside(sh, cp, e),
                    forall|e: int| d <= e < 6 ==> #[trigger] neighbour[e] == NONE,
                decreases 6 - d,
            {
                let axis = d / 2;
                let mut q = c;
                let inside = if d % 2 == 0 {
                    if q[axis] == 0 {
                        false
                    } else {
                        q[axis] = q[axis] - 1;
                        true
                    }
                } else {
                    if q[axis] + 1 == limits[axis] {
                        false
                    } else {
                        q[axis] = q[axis] + 1;
                        true
                    }
                };
                let ghost r = cp.step(d as int);
                assert(inside <==> sh.has_section(r));
                if inside {
                    proof {
                        assert(r == (Pos { x: q[0] as int, y: q[1] as int, z: q[2] as int }));
                        sh.section_round_trip(r);
                        self.section_number_fits(q[0], q[1], q[2]);
                    }
                    neighbour[d] = self.section_index(q[0], q[1], q[2]) as u32;
                }
                d += 1;
            }
            let info = SectionInfo {
                origin: [c[0] as i32 * 16, c[1] as i32 * 16, c[2] as i32 * 16, 0],
                neighbour,
                pad: [0; 2],
            };
            assert(info.pad@ =~= seq![0u32, 0]);
            assert(is_info(sh, s as int, info));
            out.push(info);
            s += 1;
        }
        out
    }
}

/// The number of the section beside the one at `c`, or [`NONE`].
pub open spec fn beside(sh: Shape, c: Pos, d: int) -> u32 {
    if sh.has_section(c.step(d)) {
        sh.section(c.step(d)) as u32
    } else {
        NONE
    }
}

/// `info` is that of section `s`.
pub open spec fn is_info(sh: Shape, s: int, info: SectionInfo) -> bool {
    let c = sh.section_pos(s);
    &&& info.origin[0] == c.x * 16
    &&& info.origin[1] == c.y * 16
    &&& info.origin[2] == c.z * 16
    &&& info.origin[3] == 0
    &&& forall|d: int| 0 <= d < 6 ==> #[trigger] info.neighbour[d] == beside(sh, c, d)
    &&& info.pad@ == seq![0u32, 0]
}

/// The block that a layer of ground is.
pub open spec fn block_of_ground(g: Option<Ground>) -> u16 {
    match g {
        None => AIR,
        Some(Ground::Sand) => SAND,
        Some(Ground::Grass) => GRASS,
        Some(Ground::Snow) => SNOW,
        Some(Ground::Dirt) => DIRT,
        Some(Ground::Stone) => STONE,
    }
}

fn ground_block(g: Ground) -> (b: u16)
    ensures
        b == block_of_ground(Some(g)),
{
    match g {
        Ground::Sand => SAND,
        Ground::Grass => GRASS,
        Ground::Snow => SNOW,
        Ground::Dirt => DIRT,
        Ground::Stone => STONE,
    }
}

/// The block of the terrain at `p`, for a height of each column, x first, and a
/// flag for each place.
pub open spec fn terrain_block(sh: Shape, heights: Seq<usize>, caves: Seq<bool>, p: Pos) -> u16 {
    if sh.has(p) {
        block_of_ground(
            ground_at(sh.ny * 16, heights[p.x + sh.nx * 16 * p.z] as int, caves[sh.place(p)], p.y),
        )
    } else {
        AIR
    }
}

/// The columns before (x, z), x slowest.
pub open spec fn column_before(p: Pos, x: int, z: int) -> bool {
    p.x < x || (p.x == x && p.z < z)
}

/// A column's number is in the list of columns.
proof fn column_number_fits(sh: Shape, x: int, z: int)
    requires
        sh.wf(),
        0 <= x < sh.nx * 16,
        0 <= z < sh.nz * 16,
    ensures
        0 <= sh.nx * 16 * z,
        x + sh.nx * 16 * z < (sh.nx * 16) * (sh.nz * 16),
{
    assert(0 <= sh.nx * 16 * z) by (nonlinear_arith)
        requires
            0 <= sh.nx,
            0 <= z,
    ;
    assert(x + sh.nx * 16 * z < (sh.nx * 16) * (sh.nz * 16)) by (nonlinear_arith)
        requires
            0 <= x < sh.nx * 16,
            z + 1 <= sh.nz * 16,
    ;
}

impl World {
    /// Terrain of a few kinds of block by height, with caves carved out of it: the
    /// height of column (x, z) is at `x + 16 * nx * z`, and whether a cell is in a
    /// cave at its place.
    pub fn terrain(nx: usize, ny: usize, nz: usize, heights: &Vec<usize>, caves: &Vec<bool>) -> (w: World)
        requires
            nx * ny * nz * 4096 <= usize::MAX,
            nx * ny * nz <= u32::MAX,
            nx * 16 <= i32::MAX,
            1 <= ny,
            ny * 16 <= i32::MAX,
            nz * 16 <= i32::MAX,
            heights@.len() == (nx * 16) * (nz * 16),
            caves@.len() == nx * ny * nz * 4096,
        ensures
            w.wf(),
            w.nx == nx,
            w.ny == ny,
            w.nz == nz,
            forall|p: Pos| #[trigger] w.at(p) == terrain_block(w.shape(), heights@, caves@, p),
    {
        let mut w = World::new(nx, ny, nz);
        let ghost sh = w.shape();
        let sx = nx * 16;
        let sy = ny * 16;
        let sz = nz * 16;
        let mut x: usize = 0;
        while x < sx
            invariant
                x <= sx,
                w.wf(),
                w.shape() == sh,
                sx == sh.nx * 16,
                sy == sh.ny * 16,
                sz == sh.nz * 16,
                1 <= sh.ny,
                heights@.len() == (sh.nx * 16) * (sh.nz * 16),
                caves@.len() == sh.count(),
                forall|p: Pos| #[trigger]
                    w.at(p) == (if column_before(p, x as int, 0) {
                        terrain_block(sh, heights@, caves@, p)
                    } else {
                        AIR
                    }),
            decreases sx - x,
        {
            let mut z: usize = 0;
            while z < sz
                invariant
                    x < sx,
                    z <= sz,
                    w.wf(),
                    w.shape() == sh,
                    sx == sh.nx * 16,
                    sy == sh.ny * 16,
                    sz == sh.nz * 16,
                    1 <= sh.ny,
                    heights@.len() == (sh.nx * 16) * (sh.nz * 16),
                    caves@.len() == sh.count(),
                    forall|p: Pos| #[trigger]
                        w.at(p) == (if column_before(p, x as int, z as int) {
                            terrain_block(sh, heights@, caves@, p)
                        } else {
                            AIR
                        }),
                decreases sz - z,
            {
                proof {
                    column_number_fits(sh, x as int, z as int);
                    assert(x + sh.nx * 16 * z < heights.len());
                }
                let h = column_height(sy, heights[x + sx * z]);
                let mut y: usize = 0;
                while y <= h
                    invariant
                        x < sx,
                        z < sz,
                        h < sy,
                        y <= h + 1,
                        h == ground_height(sy as int, heights@[x + sh.nx * 16 * z] as int),
                        w.wf(),
                        w.shape() == sh,
                        sx == sh.nx * 16,
                        sy == sh.ny * 16,
                        sz == sh.nz * 16,
                        sy <= i32::MAX,
                        caves@.len() == sh.count(),
                        forall|p: Pos| #[trigger]
                            w.at(p) == (if column_before(p, x as int, z as int) || (p.x == x && p.z == z && p.y < y) {
                                terrain_block(sh, heights@, caves@, p)
                            } else {
                                AIR
                            }),
                    decreases h + 1 - y,
                {
                    let ghost p = Pos { x: x as int, y: y as int, z: z as int };
                    let i = w.index(x, y, z);
                    let cave = y > 2 && caves[i];
                    if !cave {
                        w.set(x, y, z, ground_block(layer_at(sy, h, y)));
                    }
                    assert(w.at(p) == terrain_block(sh, heights@, caves@, p));
                    y += 1;
                }
                z += 1;
            }
            x += 1;
        }
        w
    }
}

} // verus!
