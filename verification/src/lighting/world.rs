//! Block storage, block types, the visible-face rules, and the light properties of
//! every block: opacity and emission.
//!
//! Blocks are `u16` block states. Outside the world is air.
use vstd::prelude::*;

use crate::lighting::gpu_types::{Grid, SectionInfo};
use crate::voxel::nibble::{high, high_of, join, low, low_of};
use crate::voxel::shape::{Pos, Shape};

verus! {

pub const AIR: u16 = 0;

pub const STONE: u16 = 1;

pub const DIRT: u16 = 2;

pub const GRASS: u16 = 3;

pub const SAND: u16 = 4;

pub const SNOW: u16 = 5;

pub const GLASS: u16 = 6;

pub const LEAVES: u16 = 7;

pub const WATER: u16 = 8;

pub const TORCH: u16 = 9;

pub const GLOWSTONE: u16 = 10;

pub const LAVA: u16 = 11;

pub const SEA_LANTERN: u16 = 12;

pub const BLOCK_TYPES: usize = 13;

/// Cull classes. The rule table is class by class, not state by state: a game has
/// tens of thousands of block states.
pub const CLASS_AIR: u8 = 0;

pub const CLASS_OPAQUE: u8 = 1;

pub const CLASS_GLASS: u8 = 2;

pub const CLASS_LEAVES: u8 = 3;

pub const CLASS_WATER: u8 = 4;

/// How blocks are drawn and lit.
pub struct Rules {
    /// Cull class of every possible block state.
    pub state_class: Vec<u8>,
    /// Bit `b` of entry `a`: a face of class `a` is hidden by a neighbour of class
    /// `b`.
    pub hides: Vec<u32>,
    /// Light properties per state: the opacity in the low half, the emission in the
    /// high half.
    pub props: Vec<u8>,
}

/// Bit `k` of a word is set.
pub open spec fn bit(w: u32, k: u8) -> bool {
    (w >> k) & 1 != 0
}

/// The class that the standard rules give a state.
pub open spec fn standard_class(s: u16) -> u8 {
    if s == AIR {
        CLASS_AIR
    } else if s == GLASS {
        CLASS_GLASS
    } else if s == LEAVES || s == TORCH {
        CLASS_LEAVES
    } else if s == WATER {
        CLASS_WATER
    } else {
        CLASS_OPAQUE
    }
}

/// The standard rules hide a face of class `a` behind class `b`: opaque hides every
/// face, glass hides glass, and water hides water.
pub open spec fn standard_hides(a: u8, b: u8) -> bool {
    a != CLASS_AIR && a <= CLASS_WATER && (b == CLASS_OPAQUE || (b == a && (a == CLASS_GLASS || a == CLASS_WATER)))
}

/// How much light a block takes from light entering it, by the standard rules: air,
/// glass and a torch take none, leaves and water take 1, and a full block takes 15.
pub open spec fn standard_opacity(s: u16) -> int {
    if s == AIR || s == GLASS || s == TORCH {
        0
    } else if s == LEAVES || s == WATER {
        1
    } else {
        15
    }
}

/// The light a block gives off, by the standard rules.
pub open spec fn standard_emission(s: u16) -> int {
    if s == TORCH {
        14
    } else if s == GLOWSTONE || s == LAVA || s == SEA_LANTERN {
        15
    } else {
        0
    }
}

/// How much light a block takes, by the standard rules.
pub fn opacity(s: u16) -> (o: u8)
    ensures
        o == standard_opacity(s),
        o == 0 <==> s == 0 || s == 6 || s == 9,
        o == 1 <==> s == 7 || s == 8,
        o == 0 || o == 1 || o == 15,
{
    if s == AIR || s == GLASS || s == TORCH {
        0
    } else if s == LEAVES || s == WATER {
        1
    } else {
        15
    }
}

/// The light a block gives off, by the standard rules.
pub fn emission(s: u16) -> (e: u8)
    ensures
        e == standard_emission(s),
        e == 14 <==> s == 9,
        e == 15 <==> s == 10 || s == 11 || s == 12,
        e == 0 || e == 14 || e == 15,
{
    if s == TORCH {
        14
    } else if s == GLOWSTONE || s == LAVA || s == SEA_LANTERN {
        15
    } else {
        0
    }
}

impl Rules {
    /// Every state has a class and light properties, and every class has hiders.
    pub open spec fn wf(&self) -> bool {
        &&& self.state_class@.len() == 65536
        &&& self.hides@.len() == 32
        &&& self.props@.len() == 65536
        &&& forall|s: int| 0 <= s < 65536 ==> #[trigger] self.state_class@[s] < 32
    }

    /// The class of a state.
    pub open spec fn class(&self, s: u16) -> u8 {
        self.state_class@[s as int]
    }

    /// A face of state `a` shows against a neighbour of state `b`.
    pub open spec fn shows(&self, a: u16, b: u16) -> bool {
        a != AIR && !bit(self.hides@[self.class(a) as int], self.class(b))
    }

    /// The light a state takes.
    pub open spec fn takes(&self, s: u16) -> int {
        low(self.props@[s as int])
    }

    /// The light a state gives off.
    pub open spec fn emits(&self, s: u16) -> int {
        high(self.props@[s as int])
    }

    /// These are the standard rules.
    pub open spec fn is_standard(&self) -> bool {
        &&& self.wf()
        &&& forall|s: u16| #[trigger] self.class(s) == standard_class(s)
        &&& forall|s: u16| #[trigger] self.takes(s) == standard_opacity(s)
        &&& forall|s: u16| #[trigger] self.emits(s) == standard_emission(s)
        &&& forall|a: int, b: u8|
            0 <= a < 32 && b < 32 ==> #[trigger] bit(self.hides@[a], b) == standard_hides(a as u8, b)
    }

    /// The standard rules.
    pub fn standard() -> (rules: Rules)
        ensures
            rules.is_standard(),
    {
        let mut state_class: Vec<u8> = Vec::new();
        let mut props: Vec<u8> = Vec::new();
        let mut s: u32 = 0;
        while s < 65536
            invariant
                s <= 65536,
                state_class@.len() == s,
                props@.len() == s,
                forall|i: int| 0 <= i < s ==> #[trigger] state_class@[i] == standard_class(i as u16),
                forall|i: int| 0 <= i < s ==> low(#[trigger] props@[i]) == standard_opacity(i as u16),
                forall|i: int| 0 <= i < s ==> high(#[trigger] props@[i]) == standard_emission(i as u16),
            decreases 65536 - s,
        {
            let state = s as u16;
            let class = if state == AIR {
                CLASS_AIR
            } else if state == GLASS {
                CLASS_GLASS
            } else if state == LEAVES || state == TORCH {
                CLASS_LEAVES
            } else if state == WATER {
                CLASS_WATER
            } else {
                CLASS_OPAQUE
            };
            state_class.push(class);
            props.push(join(emission(state), opacity(state)));
            s += 1;
        }
        // Opaque hides everything's face. Glass also hides glass, water hides
        // water. Leaves and the torch cube hide nothing, so leaves show every
        // face, even against leaves.
        let mut hides: Vec<u32> = Vec::new();
        let mut a: u8 = 0;
        while a < 32
            invariant
                a <= 32,
                hides@.len() == a,
                forall|i: int, b: u8| 0 <= i < a && b < 32 ==> #[trigger] bit(hides@[i], b) == standard_hides(i as u8, b),
            decreases 32 - a,
        {
            let w: u32 = if a == CLASS_OPAQUE || a == CLASS_LEAVES {
                2
            } else if a == CLASS_GLASS {
                6
            } else if a == CLASS_WATER {
                18
            } else {
                0
            };
            proof {
                hiders(w);
            }
            hides.push(w);
            a += 1;
        }
        Rules { state_class, hides, props }
    }

    /// Whether a face of state `a` shows against a neighbour of state `b`.
    pub fn visible(&self, a: u16, b: u16) -> (shows: bool)
        requires
            self.wf(),
        ensures
            shows == self.shows(a, b),
    {
        let ca = self.state_class[a as usize];
        let cb = self.state_class[b as usize];
        a != AIR && (self.hides[ca as usize] >> cb) & 1 == 0
    }

    /// The light a state takes.
    pub fn opacity(&self, s: u16) -> (o: u8)
        requires
            self.wf(),
        ensures
            o == self.takes(s),
            o <= 15,
    {
        low_of(self.props[s as usize])
    }

    /// The light a state gives off.
    pub fn emission(&self, s: u16) -> (e: u8)
        requires
            self.wf(),
        ensures
            e == self.emits(s),
            e <= 15,
    {
        high_of(self.props[s as usize])
    }

    /// Whether a state is an ambient-occlusion occluder: a full opaque cube.
    pub fn occludes(&self, s: u16) -> (yes: bool)
        requires
            self.wf(),
        ensures
            yes == (self.class(s) == CLASS_OPAQUE),
    {
        self.state_class[s as usize] == CLASS_OPAQUE
    }
}

/// The bits of the standard rules' words.
pub proof fn hiders(w: u32)
    ensures
        w == 0 ==> forall|b: u8| b < 32 ==> !(#[trigger] bit(w, b)),
        w == 2 ==> forall|b: u8| b < 32 ==> (#[trigger] bit(w, b) <==> b == 1),
        w == 6 ==> forall|b: u8| b < 32 ==> (#[trigger] bit(w, b) <==> b == 1 || b == 2),
        w == 18 ==> forall|b: u8| b < 32 ==> (#[trigger] bit(w, b) <==> b == 1 || b == 4),
{
    assert forall|b: u8| b < 32 implies {
        &&& w == 0 ==> !(#[trigger] bit(w, b))
        &&& w == 2 ==> (bit(w, b) <==> b == 1)
        &&& w == 6 ==> (bit(w, b) <==> b == 1 || b == 2)
        &&& w == 18 ==> (bit(w, b) <==> b == 1 || b == 4)
    } by {
        assert(b < 32 ==> {
            &&& w == 0 ==> (w >> b) & 1 == 0
            &&& w == 2 ==> ((w >> b) & 1 != 0 <==> b == 1)
            &&& w == 6 ==> ((w >> b) & 1 != 0 <==> b == 1 || b == 2)
            &&& w == 18 ==> ((w >> b) & 1 != 0 <==> b == 1 || b == 4)
        }) by (bit_vector);
    }
}

/// By the standard rules, a face that is not air's shows unless its neighbour is
/// opaque, or both are glass, or both are water.
pub proof fn standard_faces(rules: &Rules, a: u16, b: u16)
    requires
        rules.is_standard(),
    ensures
        rules.shows(a, b) <==> a != AIR && standard_class(b) != CLASS_OPAQUE && !(a == GLASS && b == GLASS) && !(a == WATER
            && b == WATER),
{
    let ca = rules.class(a);
    let cb = rules.class(b);
    assert(ca == standard_class(a) && cb == standard_class(b));
    assert(bit(rules.hides@[ca as int], cb) == standard_hides(ca, cb));
}

/// The blocks by their numbers. Air, glass and a torch take no light, leaves and water take 1,
/// and every other block takes all 15; a torch gives off 14, glowstone, lava and a sea lantern
/// give off 15, and no other block gives off any.
pub proof fn standard_light(rules: &Rules)
    requires
        rules.is_standard(),
    ensures
        rules.takes(0) == 0 && rules.takes(6) == 0 && rules.takes(9) == 0,
        rules.takes(7) == 1 && rules.takes(8) == 1,
        forall|s: u16| s != 0 && s != 6 && s != 7 && s != 8 && s != 9 ==> #[trigger] rules.takes(s) == 15,
        rules.emits(9) == 14,
        rules.emits(10) == 15 && rules.emits(11) == 15 && rules.emits(12) == 15,
        forall|s: u16| s < 9 || s > 12 ==> #[trigger] rules.emits(s) == 0,
{
}

/// The blocks by their numbers, and what can be seen of them: every block but air is seen next to
/// air; behind stone, or any other full block, nothing is; glass does not show next to glass, nor
/// water next to water; leaves and torches hide nothing, not even each other.
pub proof fn standard_sight(rules: &Rules, a: u16, b: u16)
    requires
        rules.is_standard(),
    ensures
        !rules.shows(0, b),
        a != 0 ==> rules.shows(a, 0) && rules.shows(a, 7) && rules.shows(a, 9),
        a != 0 ==> (rules.shows(a, 6) <==> a != 6) && (rules.shows(a, 8) <==> a != 8),
        b != 0 && b != 6 && b != 7 && b != 8 && b != 9 ==> !rules.shows(a, b),
        rules.class(a) == CLASS_OPAQUE <==> a != 0 && a != 6 && a != 7 && a != 8 && a != 9,
{
    standard_faces(rules, 0, b);
    standard_faces(rules, a, 0);
    standard_faces(rules, a, 6);
    standard_faces(rules, a, 7);
    standard_faces(rules, a, 8);
    standard_faces(rules, a, 9);
    standard_faces(rules, a, b);
}

/// Blocks, section by section.
#[derive(Clone)]
pub struct World {
    /// Size in sections.
    pub nx: usize,
    pub ny: usize,
    pub nz: usize,
    pub blocks: Vec<u16>,
}

/// `q` is `p` or one of the 26 blocks around it.
pub open spec fn around(p: Pos, q: Pos) -> bool {
    -1 <= q.x - p.x <= 1 && -1 <= q.y - p.y <= 1 && -1 <= q.z - p.z <= 1
}

/// The `k`th of the 27 blocks around `p`, x first, then y, then z.
pub open spec fn nearby(p: Pos, k: int) -> Pos {
    Pos { x: p.x + k % 3 - 1, y: p.y + (k / 3) % 3 - 1, z: p.z + k / 9 - 1 }
}

/// The sections of the first `k` blocks around `p`, each once, in the order met.
pub open spec fn touched(sh: Shape, p: Pos, k: int) -> Seq<u32>
    decreases k,
{
    if k <= 0 {
        Seq::empty()
    } else {
        let before = touched(sh, p, k - 1);
        let q = nearby(p, k - 1);
        let s = sh.section_of(q) as u32;
        if sh.has(q) && !before.contains(s) {
            before.push(s)
        } else {
            before
        }
    }
}

impl World {
    /// The size.
    pub open spec fn shape(&self) -> Shape {
        Shape { nx: self.nx as int, ny: self.ny as int, nz: self.nz as int }
    }

    /// There is one block for each cell, and coordinates and section numbers fit
    /// their types.
    pub open spec fn wf(&self) -> bool {
        &&& self.blocks@.len() == self.shape().count()
        &&& self.shape().sections() <= u32::MAX
        &&& self.nx * 16 <= i32::MAX
        &&& self.ny * 16 <= i32::MAX
        &&& self.nz * 16 <= i32::MAX
    }

    /// The block at a position; air outside the world.
    pub open spec fn at(&self, p: Pos) -> u16 {
        if self.shape().has(p) {
            self.blocks@[self.shape().place(p)]
        } else {
            AIR
        }
    }

    /// A world of air.
    pub fn new(nx: usize, ny: usize, nz: usize) -> (world: World)
        requires
            nx * ny * nz * 4096 <= usize::MAX,
            nx * ny * nz <= u32::MAX,
            nx * 16 <= i32::MAX,
            ny * 16 <= i32::MAX,
            nz * 16 <= i32::MAX,
        ensures
            world.wf(),
            world.nx == nx,
            world.ny == ny,
            world.nz == nz,
            forall|p: Pos| world.at(p) == AIR,
    {
        let n = cells_of(nx, ny, nz);
        let blocks: Vec<u16> = vec![AIR; n];
        let world = World { nx, ny, nz, blocks };
        assert forall|p: Pos| world.at(p) == AIR by {
            if world.shape().has(p) {
                world.shape().place_round_trip(p);
            }
        }
        world
    }

    /// The number of sections.
    pub fn section_count(&self) -> (n: usize)
        requires
            self.wf(),
        ensures
            n == self.shape().sections(),
    {
        sections_of(self.nx, self.ny, self.nz)
    }

    /// The size in blocks.
    pub fn size_blocks(&self) -> (size: [usize; 3])
        requires
            self.wf(),
        ensures
            size[0] == self.nx * 16,
            size[1] == self.ny * 16,
            size[2] == self.nz * 16,
    {
        [self.nx * 16, self.ny * 16, self.nz * 16]
    }

    /// The size in sections, as shaders take it.
    pub fn grid(&self) -> (grid: Grid)
        requires
            self.wf(),
        ensures
            grid.nx == self.nx,
            grid.ny == self.ny,
            grid.nz == self.nz,
            grid.pad == 0,
    {
        Grid { nx: self.nx as u32, ny: self.ny as u32, nz: self.nz as u32, pad: 0 }
    }

    /// The number of the section with these coordinates.
    pub fn section_index(&self, sx: usize, sy: usize, sz: usize) -> (s: usize)
        requires
            sz + self.nz * sy <= usize::MAX,
            sx + self.nx * (sz + self.nz * sy) <= usize::MAX,
        ensures
            s == self.shape().section(Pos { x: sx as int, y: sy as int, z: sz as int }),
    {
        proof {
            reveal(Shape::section);
        }
        assert(self.nz * sy >= 0) by (nonlinear_arith);
        assert(self.nx * (sz + self.nz * sy) >= 0) by (nonlinear_arith)
            requires
                sz + self.nz * sy >= 0,
        ;
        sx + self.nx * (sz + self.nz * sy)
    }

    /// The coordinates of a section.
    pub fn section_coords(&self, s: usize) -> (c: [usize; 3])
        requires
            self.wf(),
            s < self.shape().sections(),
        ensures
            c[0] == self.shape().section_pos(s as int).x,
            c[1] == self.shape().section_pos(s as int).y,
            c[2] == self.shape().section_pos(s as int).z,
            c[0] < self.nx,
            c[1] < self.ny,
            c[2] < self.nz,
    {
        proof {
            reveal(Shape::section_pos);
            self.shape().section_pos_round_trip(s as int);
            sides_are_positive(self.nx, self.ny, self.nz);
            assert(self.nx * self.nz <= self.nx * self.ny * self.nz) by (nonlinear_arith)
                requires
                    self.ny >= 1,
            ;
            assert(self.nx * self.nz > 0) by (nonlinear_arith)
                requires
                    self.nx >= 1,
                    self.nz >= 1,
            ;
        }
        [s % self.nx, s / (self.nx * self.nz), (s / self.nx) % self.nz]
    }

    /// The section with these coordinates, or `None` outside.
    pub fn section_at(&self, sx: i32, sy: i32, sz: i32) -> (s: Option<usize>)
        requires
            self.wf(),
        ensures
            ({
                let c = Pos { x: sx as int, y: sy as int, z: sz as int };
                match s {
                    Some(s) => self.shape().has_section(c) && s == self.shape().section(c),
                    None => !self.shape().has_section(c),
                }
            }),
    {
        if sx < 0 || sy < 0 || sz < 0 {
            return None;
        }
        let (x, y, z) = (sx as usize, sy as usize, sz as usize);
        if x < self.nx && y < self.ny && z < self.nz {
            proof {
                self.shape().section_round_trip(Pos { x: sx as int, y: sy as int, z: sz as int });
                self.section_number_fits(x, y, z);
            }
            Some(self.section_index(x, y, z))
        } else {
            None
        }
    }

    pub proof fn section_number_fits(&self, x: usize, y: usize, z: usize)
        requires
            self.wf(),
            x < self.nx,
            y < self.ny,
            z < self.nz,
        ensures
            z + self.nz * y <= usize::MAX,
            x + self.nx * (z + self.nz * y) <= usize::MAX,
    {
        let c = Pos { x: x as int, y: y as int, z: z as int };
        reveal(Shape::section);
        self.shape().section_round_trip(c);
        let t = z + self.nz * y;
        assert(self.nx * t >= t) by (nonlinear_arith)
            requires
                self.nx >= 1,
                t >= 0,
        ;
    }

    /// Whether a position is in the world.
    pub fn in_bounds(&self, x: i32, y: i32, z: i32) -> (yes: bool)
        requires
            self.wf(),
        ensures
            yes == self.shape().has(Pos { x: x as int, y: y as int, z: z as int }),
    {
        let size = self.size_blocks();
        x >= 0 && y >= 0 && z >= 0 && (x as usize) < size[0] && (y as usize) < size[1] && (z as usize) < size[2]
    }

    /// Where the block at a position is stored.
    pub fn index(&self, x: usize, y: usize, z: usize) -> (i: usize)
        requires
            self.wf(),
            self.shape().has(Pos { x: x as int, y: y as int, z: z as int }),
        ensures
            i == self.shape().place(Pos { x: x as int, y: y as int, z: z as int }),
            i < self.blocks@.len(),
    {
        let ghost p = Pos { x: x as int, y: y as int, z: z as int };
        proof {
            reveal(Shape::place);
            self.shape().place_round_trip(p);
            self.shape().section_of_block(p);
            self.section_number_fits(x / 16, y / 16, z / 16);
        }
        let s = self.section_index(x / 16, y / 16, z / 16);
        assert(s * 4096 <= self.shape().place(p) < self.blocks.len());
        s * 4096 + (x % 16) + 16 * ((z % 16) + 16 * (y % 16))
    }

    /// The block at a position; air outside the world.
    pub fn get(&self, x: i32, y: i32, z: i32) -> (b: u16)
        requires
            self.wf(),
        ensures
            b == self.at(Pos { x: x as int, y: y as int, z: z as int }),
    {
        if !self.in_bounds(x, y, z) {
            return AIR;
        }
        self.blocks[self.index(x as usize, y as usize, z as usize)]
    }

    /// Changes a block.
    pub fn set(&mut self, x: usize, y: usize, z: usize, b: u16)
        requires
            old(self).wf(),
            old(self).shape().has(Pos { x: x as int, y: y as int, z: z as int }),
        ensures
            final(self).wf(),
            final(self).shape() == old(self).shape(),
            final(self).blocks@ == old(self).blocks@.update(
                old(self).shape().place(Pos { x: x as int, y: y as int, z: z as int }),
                b,
            ),
            forall|q: Pos| #[trigger]
                final(self).at(q) == (if q == (Pos { x: x as int, y: y as int, z: z as int }) {
                    b
                } else {
                    old(self).at(q)
                }),
    {
        let ghost p = Pos { x: x as int, y: y as int, z: z as int };
        let ghost sh = self.shape();
        let i = self.index(x, y, z);
        self.blocks.set(i, b);
        assert forall|q: Pos| #[trigger] self.at(q) == (if q == p {
            b
        } else {
            old(self).at(q)
        }) by {
            if sh.has(q) {
                sh.place_round_trip(q);
                if sh.place(q) == sh.place(p) {
                    sh.places_differ(p, q);
                }
            }
        }
    }

    /// The sections whose mesh can change when the block at a position does: its own
    /// and every neighbour it touches, diagonals among them, since ambient occlusion
    /// reads the blocks all around.
    pub fn sections_touching(&self, x: usize, y: usize, z: usize) -> (out: Vec<u32>)
        requires
            self.wf(),
            x < i32::MAX,
            y < i32::MAX,
            z < i32::MAX,
        ensures
            out@ == touched(self.shape(), Pos { x: x as int, y: y as int, z: z as int }, 27),
    {
        let ghost p = Pos { x: x as int, y: y as int, z: z as int };
        let ghost sh = self.shape();
        let mut out: Vec<u32> = Vec::new();
        let mut k: i32 = 0;
        while k < 27
            invariant
                0 <= k <= 27,
                self.wf(),
                x < i32::MAX,
                y < i32::MAX,
                z < i32::MAX,
                sh == self.shape(),
                p == (Pos { x: x as int, y: y as int, z: z as int }),
                out@ == touched(sh, p, k as int),
            decreases 27 - k,
        {
            let qx = x as i32 + (k % 3 - 1);
            let qy = y as i32 + ((k / 3) % 3 - 1);
            let qz = z as i32 + (k / 9 - 1);
            let ghost q = nearby(p, k as int);
            assert(q == (Pos { x: qx as int, y: qy as int, z: qz as int }));
            if self.in_bounds(qx, qy, qz) {
                proof {
                    sh.section_of_block(q);
                    self.section_number_fits(qx as usize / 16, qy as usize / 16, qz as usize / 16);
                }
                let s = self.section_index(qx as usize / 16, qy as usize / 16, qz as usize / 16) as u32;
                if !holds(&out, s) {
                    out.push(s);
                }
            }
            k += 1;
        }
        out
    }

    /// Every section, in the order of the directory.
    pub fn directory(&self) -> (out: Vec<u32>)
        requires
            self.wf(),
        ensures
            out@ == Seq::new(self.shape().sections() as nat, |s: int| s as u32),
    {
        numbers_below(self.section_count())
    }

    /// Where each section is.
    pub fn section_infos(&self) -> (out: Vec<SectionInfo>)
        requires
            self.wf(),
        ensures
            out@.len() == self.shape().sections(),
            forall|s: int|
                0 <= s < out@.len() ==> {
                    let c = self.shape().section_pos(s);
                    &&& (#[trigger] out@[s]).origin[0] == c.x * 16
                    &&& out@[s].origin[1] == c.y * 16
                    &&& out@[s].origin[2] == c.z * 16
                    &&& out@[s].origin[3] == 0
                    &&& out@[s].brick == s
                    &&& out@[s].pad@ == seq![0u32, 0, 0]
                },
    {
        let n = self.section_count();
        let mut out: Vec<SectionInfo> = Vec::new();
        let mut s: usize = 0;
        while s < n
            invariant
                s <= n,
                n == self.shape().sections(),
                self.wf(),
                out@.len() == s,
                forall|s: int|
                    0 <= s < out@.len() ==> {
                        let c = self.shape().section_pos(s);
                        &&& (#[trigger] out@[s]).origin[0] == c.x * 16
                        &&& out@[s].origin[1] == c.y * 16
                        &&& out@[s].origin[2] == c.z * 16
                        &&& out@[s].origin[3] == 0
                        &&& out@[s].brick == s
                        &&& out@[s].pad@ == seq![0u32, 0, 0]
                    },
            decreases n - s,
        {
            let c = self.section_coords(s);
            out.push(
                SectionInfo {
                    origin: [c[0] as i32 * 16, c[1] as i32 * 16, c[2] as i32 * 16, 0],
                    brick: s as u32,
                    pad: [0; 3],
                },
            );
            s += 1;
        }
        out
    }

    /// The height of a column: the top block that is not air.
    pub fn top(&self, x: usize, z: usize) -> (y: Option<usize>)
        requires
            self.wf(),
            x <= i32::MAX,
            z <= i32::MAX,
        ensures
            y == self.highest(x as int, z as int, self.ny * 16),
    {
        let mut y: usize = self.ny * 16;
        while y > 0
            invariant
                self.wf(),
                x <= i32::MAX,
                z <= i32::MAX,
                y <= self.ny * 16,
                self.highest(x as int, z as int, self.ny * 16) == self.highest(x as int, z as int, y as int),
            decreases y,
        {
            y -= 1;
            if self.get(x as i32, y as i32, z as i32) != AIR {
                return Some(y);
            }
        }
        None
    }

    /// The top block below `below` of a column that is not air.
    pub open spec fn highest(&self, x: int, z: int, below: int) -> Option<usize>
        decreases below,
    {
        if below <= 0 {
            None
        } else if self.at(Pos { x, y: below - 1, z }) != AIR {
            Some((below - 1) as usize)
        } else {
            self.highest(x, z, below - 1)
        }
    }
}

/// `n` sides of sections hold a section or more each.
pub proof fn sides_are_positive(nx: usize, ny: usize, nz: usize)
    requires
        0 < nx * ny * nz,
    ensures
        nx >= 1,
        ny >= 1,
        nz >= 1,
{
    assert(nx >= 1 && ny >= 1 && nz >= 1) by (nonlinear_arith)
        requires
            0 < nx * ny * nz,
            nx >= 0,
            ny >= 0,
            nz >= 0,
    ;
}

/// The number of sections.
pub(crate) fn sections_of(nx: usize, ny: usize, nz: usize) -> (n: usize)
    requires
        nx * ny * nz <= u32::MAX,
        nx * 16 <= i32::MAX,
        ny * 16 <= i32::MAX,
        nz * 16 <= i32::MAX,
    ensures
        n == nx * ny * nz,
{
    if nz == 0 {
        assert(nx * ny * nz == 0) by (nonlinear_arith)
            requires
                nz == 0,
        ;
        return 0;
    }
    assert(0 <= nx * ny <= nx * ny * nz) by (nonlinear_arith)
        requires
            nz >= 1,
            nx >= 0,
            ny >= 0,
    ;
    nx * ny * nz
}

/// The number of cells.
pub(crate) fn cells_of(nx: usize, ny: usize, nz: usize) -> (n: usize)
    requires
        nx * ny * nz * 4096 <= usize::MAX,
        nx * ny * nz <= u32::MAX,
        nx * 16 <= i32::MAX,
        ny * 16 <= i32::MAX,
        nz * 16 <= i32::MAX,
    ensures
        n == nx * ny * nz * 4096,
{
    sections_of(nx, ny, nz) * 4096
}

/// Whether a list holds a number.
pub(crate) fn holds(list: &Vec<u32>, s: u32) -> (yes: bool)
    ensures
        yes == list@.contains(s),
{
    let mut k: usize = 0;
    while k < list.len()
        invariant
            k <= list@.len(),
            forall|i: int| 0 <= i < k ==> list@[i] != s,
        decreases list@.len() - k,
    {
        if list[k] == s {
            return true;
        }
        k += 1;
    }
    false
}

/// The numbers from 0 on.
pub(crate) fn numbers_below(n: usize) -> (out: Vec<u32>)
    requires
        n <= u32::MAX,
    ensures
        out@ == Seq::new(n as nat, |s: int| s as u32),
{
    let mut out: Vec<u32> = Vec::new();
    let mut s: usize = 0;
    while s < n
        invariant
            s <= n <= u32::MAX,
            out@.len() == s,
            forall|i: int| 0 <= i < s ==> out@[i] == i as u32,
        decreases n - s,
    {
        out.push(s as u32);
        s += 1;
    }
    assert(out@ =~= Seq::new(n as nat, |s: int| s as u32));
    out
}

/// Each block around `p` is one of the 27.
proof fn nearby_reaches(p: Pos, q: Pos) -> (k: int)
    requires
        around(p, q),
    ensures
        0 <= k < 27,
        nearby(p, k) == q,
{
    (q.x - p.x + 1) + 3 * (q.y - p.y + 1) + 9 * (q.z - p.z + 1)
}

/// A section is touched exactly if a block around `p` is in it, and is listed once.
pub proof fn touched_sections(sh: Shape, p: Pos)
    requires
        sh.wf(),
        sh.sections() <= u32::MAX,
    ensures
        touched(sh, p, 27).no_duplicates(),
        forall|s: u32| #[trigger]
            touched(sh, p, 27).contains(s) <==> exists|q: Pos| around(p, q) && sh.has(q) && #[trigger] sh.section_of(q) == s,
{
    touched_by_first(sh, p, 27);
    let all = touched(sh, p, 27);
    assert forall|s: u32| #[trigger] all.contains(s) <==> exists|q: Pos|
        around(p, q) && sh.has(q) && #[trigger] sh.section_of(q) == s by {
        if all.contains(s) {
            let k = choose|k: int| 0 <= k < 27 && sh.has(#[trigger] nearby(p, k)) && sh.section_of(nearby(p, k)) == s;
            assert(around(p, nearby(p, k)));
            assert(sh.section_of(nearby(p, k)) == s);
        }
        if exists|q: Pos| around(p, q) && sh.has(q) && #[trigger] sh.section_of(q) == s {
            let q = choose|q: Pos| around(p, q) && sh.has(q) && #[trigger] sh.section_of(q) == s;
            let k = nearby_reaches(p, q);
            assert(sh.has(nearby(p, k)));
        }
    }
}

proof fn touched_by_first(sh: Shape, p: Pos, n: int)
    requires
        sh.wf(),
        sh.sections() <= u32::MAX,
        0 <= n,
    ensures
        touched(sh, p, n).no_duplicates(),
        forall|s: u32| #[trigger]
            touched(sh, p, n).contains(s) <==> exists|k: int|
                0 <= k < n && sh.has(#[trigger] nearby(p, k)) && sh.section_of(nearby(p, k)) == s,
    decreases n,
{
    if n > 0 {
        touched_by_first(sh, p, n - 1);
        let before = touched(sh, p, n - 1);
        let all = touched(sh, p, n);
        let q = nearby(p, n - 1);
        if sh.has(q) {
            sh.section_of_block(q);
        }
        let s0 = sh.section_of(q) as u32;
        assert forall|s: u32| #[trigger] all.contains(s) <==> exists|k: int|
            0 <= k < n && sh.has(#[trigger] nearby(p, k)) && sh.section_of(nearby(p, k)) == s by {
            if all.contains(s) {
                if before.contains(s) {
                    let k = choose|k: int| 0 <= k < n - 1 && sh.has(#[trigger] nearby(p, k)) && sh.section_of(nearby(p, k)) == s;
                    assert(sh.has(nearby(p, k)));
                } else {
                    let i = choose|i: int| 0 <= i < all.len() && all[i] == s;
                    if i < before.len() {
                        assert(before[i] == s);
                    }
                    assert(sh.has(nearby(p, n - 1)));
                }
            }
            if exists|k: int| 0 <= k < n && sh.has(#[trigger] nearby(p, k)) && sh.section_of(nearby(p, k)) == s {
                let k = choose|k: int| 0 <= k < n && sh.has(#[trigger] nearby(p, k)) && sh.section_of(nearby(p, k)) == s;
                if k < n - 1 {
                    assert(before.contains(s));
                    let i = choose|i: int| 0 <= i < before.len() && before[i] == s;
                    assert(all[i] == s);
                } else if before.contains(s0) {
                } else {
                    assert(all[before.len() as int] == s);
                }
            }
        }
    }
}

} // verus!
