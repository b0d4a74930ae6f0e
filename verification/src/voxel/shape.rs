//! Cells and where they are stored.
//!
//! Cells are stored section-major: section `s` owns the places `s * 4096` up to
//! `(s + 1) * 4096`, and inside a section the place is `x + 16 * (z + 16 * y)`.
//! Sections are numbered `sx + nx * (sz + nz * sy)`.
use vstd::arithmetic::div_mod::{
    lemma_div_denominator, lemma_fundamental_div_mod, lemma_fundamental_div_mod_converse,
};
use vstd::prelude::*;

verus! {

/// The step to each neighbour: -X, +X, -Y, +Y, -Z, +Z.
pub const DIR_STEP: [[i32; 3]; 6] = [[-1, 0, 0], [1, 0, 0], [0, -1, 0], [0, 1, 0], [0, 0, -1], [0, 0, 1]];

/// A position, in blocks.
pub struct Pos {
    pub x: int,
    pub y: int,
    pub z: int,
}

impl Pos {
    /// The position one step in direction `d`.
    pub open spec fn step(self, d: int) -> Pos {
        Pos { x: self.x + DIR_STEP[d][0], y: self.y + DIR_STEP[d][1], z: self.z + DIR_STEP[d][2] }
    }
}

/// The position that a triple of coordinates names.
pub open spec fn pos_of(p: [i32; 3]) -> Pos {
    Pos { x: p[0] as int, y: p[1] as int, z: p[2] as int }
}

/// The direction back.
pub open spec fn opposite(d: int) -> int {
    if d % 2 == 0 {
        d + 1
    } else {
        d - 1
    }
}

/// A step and a step back end where they began.
pub proof fn step_and_back(p: Pos, d: int)
    requires
        0 <= d < 6,
    ensures
        0 <= opposite(d) < 6,
        opposite(opposite(d)) == d,
        p.step(d).step(opposite(d)) == p,
{
}

/// The parts of a place inside a section.
proof fn within_section(x: int, z: int, y: int)
    requires
        0 <= x < 16,
        0 <= z < 16,
        0 <= y < 16,
    ensures
        ({
            let r = x + 16 * (z + 16 * y);
            0 <= r < 4096 && r % 16 == x && (r / 16) % 16 == z && r / 256 == y
        }),
{
}

/// A place inside a section is its parts.
proof fn parts_of_place(r: int)
    requires
        0 <= r < 4096,
    ensures
        0 <= r % 16 < 16,
        0 <= (r / 16) % 16 < 16,
        0 <= r / 256 < 16,
        r == r % 16 + 16 * ((r / 16) % 16 + 16 * (r / 256)),
{
}

/// A place is its section and the place in it.
proof fn split_place(s: int, r: int)
    requires
        0 <= r < 4096,
    ensures
        (s * 4096 + r) / 4096 == s,
        (s * 4096 + r) % 4096 == r,
{
}

/// A coordinate is its section's and the rest.
proof fn block_of(c: int, r: int, n: int)
    requires
        0 <= c < n,
        0 <= r < 16,
    ensures
        0 <= c * 16 + r < n * 16,
        (c * 16 + r) / 16 == c,
        (c * 16 + r) % 16 == r,
{
}

/// The size of a world, in sections of 16 x 16 x 16 blocks.
pub struct Shape {
    pub nx: int,
    pub ny: int,
    pub nz: int,
}

impl Shape {
    /// No side is negative.
    pub open spec fn wf(self) -> bool {
        0 <= self.nx && 0 <= self.ny && 0 <= self.nz
    }

    /// The number of sections.
    pub open spec fn sections(self) -> int {
        self.nx * self.ny * self.nz
    }

    /// The number of cells.
    pub open spec fn count(self) -> int {
        self.sections() * 4096
    }

    /// `p` is in the world.
    pub open spec fn has(self, p: Pos) -> bool {
        0 <= p.x < self.nx * 16 && 0 <= p.y < self.ny * 16 && 0 <= p.z < self.nz * 16
    }

    /// The section coordinates are in the world.
    pub open spec fn has_section(self, c: Pos) -> bool {
        0 <= c.x < self.nx && 0 <= c.y < self.ny && 0 <= c.z < self.nz
    }

    /// The number of a section.
    #[verifier::opaque]
    pub open spec fn section(self, c: Pos) -> int {
        c.x + self.nx * (c.z + self.nz * c.y)
    }

    /// The coordinates of a section.
    #[verifier::opaque]
    pub open spec fn section_pos(self, s: int) -> Pos {
        Pos { x: s % self.nx, y: s / (self.nx * self.nz), z: (s / self.nx) % self.nz }
    }

    /// The coordinates of the section a block is in.
    pub open spec fn section_pos_of(self, p: Pos) -> Pos {
        Pos { x: p.x / 16, y: p.y / 16, z: p.z / 16 }
    }

    /// The section a block is in.
    pub open spec fn section_of(self, p: Pos) -> int {
        self.section(self.section_pos_of(p))
    }

    /// Where a block is stored.
    #[verifier::opaque]
    pub open spec fn place(self, p: Pos) -> int {
        self.section_of(p) * 4096 + p.x % 16 + 16 * (p.z % 16 + 16 * (p.y % 16))
    }

    /// The block stored at a place.
    #[verifier::opaque]
    pub open spec fn cell(self, i: int) -> Pos {
        let c = self.section_pos(i / 4096);
        let r = i % 4096;
        Pos { x: c.x * 16 + r % 16, y: c.y * 16 + r / 256, z: c.z * 16 + (r / 16) % 16 }
    }

    /// Where the neighbour in direction `d` of the block at place `i` is stored, if
    /// it is in the world.
    pub open spec fn next(self, i: int, d: int) -> Option<int> {
        let q = self.cell(i).step(d);
        if self.has(q) {
            Some(self.place(q))
        } else {
            None
        }
    }

    /// Section coordinates and section numbers name the same sections.
    pub proof fn section_round_trip(self, c: Pos)
        requires
            self.wf(),
            self.has_section(c),
        ensures
            0 <= self.section(c) < self.sections(),
            self.section_pos(self.section(c)) == c,
    {
        reveal(Shape::section);
        reveal(Shape::section_pos);
        let s = self.section(c);
        let t = c.z + self.nz * c.y;
        assert(0 <= t) by (nonlinear_arith)
            requires
                0 <= c.z,
                0 <= c.y,
                0 <= self.nz,
                t == c.z + self.nz * c.y,
        ;
        assert(t < self.nz * self.ny) by (nonlinear_arith)
            requires
                c.z < self.nz,
                0 <= c.y < self.ny,
                t == c.z + self.nz * c.y,
                0 < self.nz,
        ;
        assert(0 <= s) by (nonlinear_arith)
            requires
                0 <= c.x,
                0 <= t,
                0 <= self.nx,
                s == c.x + self.nx * t,
        ;
        assert(s < self.nx * (self.nz * self.ny)) by (nonlinear_arith)
            requires
                c.x < self.nx,
                0 <= t < self.nz * self.ny,
                s == c.x + self.nx * t,
                0 < self.nx,
        ;
        assert(self.nx * (self.nz * self.ny) == self.nx * self.ny * self.nz) by (nonlinear_arith);
        assert(t * self.nx == self.nx * t) by (nonlinear_arith);
        lemma_fundamental_div_mod_converse(s, self.nx, t, c.x);
        assert(c.y * self.nz == self.nz * c.y) by (nonlinear_arith);
        lemma_fundamental_div_mod_converse(t, self.nz, c.y, c.z);
        lemma_div_denominator(s, self.nx, self.nz);
    }

    /// Section numbers and section coordinates name the same sections.
    pub proof fn section_pos_round_trip(self, s: int)
        requires
            self.wf(),
            0 <= s < self.sections(),
        ensures
            self.has_section(self.section_pos(s)),
            self.section(self.section_pos(s)) == s,
    {
        reveal(Shape::section);
        reveal(Shape::section_pos);
        assert(self.nx > 0 && self.ny > 0 && self.nz > 0) by (nonlinear_arith)
            requires
                0 <= self.nx,
                0 <= self.ny,
                0 <= self.nz,
                0 < self.nx * self.ny * self.nz,
        ;
        let c = self.section_pos(s);
        let t = s / self.nx;
        lemma_fundamental_div_mod(s, self.nx);
        lemma_fundamental_div_mod(t, self.nz);
        lemma_div_denominator(s, self.nx, self.nz);
        assert(t >= 0) by (nonlinear_arith)
            requires
                s >= 0,
                self.nx > 0,
                t == s / self.nx,
        ;
        assert(c.y == t / self.nz);
        assert(c.y >= 0) by (nonlinear_arith)
            requires
                t >= 0,
                self.nz > 0,
                c.y == t / self.nz,
        ;
        assert(c.y < self.ny) by (nonlinear_arith)
            requires
                s < self.nx * self.ny * self.nz,
                s == self.nx * t + c.x,
                t == self.nz * c.y + c.z,
                0 <= c.x,
                0 <= c.z,
                self.nx > 0,
                self.nz > 0,
        ;
    }

    /// A block's section is in the world.
    pub proof fn section_of_block(self, p: Pos)
        requires
            self.wf(),
            self.has(p),
        ensures
            self.has_section(self.section_pos_of(p)),
            0 <= self.section_of(p) < self.sections(),
            self.section_pos(self.section_of(p)) == self.section_pos_of(p),
    {
        self.section_round_trip(self.section_pos_of(p));
    }

    /// Every block has a place, and the block at that place is the block.
    pub proof fn place_round_trip(self, p: Pos)
        requires
            self.wf(),
            self.has(p),
        ensures
            0 <= self.place(p) < self.count(),
            self.cell(self.place(p)) == p,
            self.place(p) / 4096 == self.section_of(p),
    {
        reveal(Shape::place);
        reveal(Shape::cell);
        self.section_of_block(p);
        let s = self.section_of(p);
        let r = p.x % 16 + 16 * (p.z % 16 + 16 * (p.y % 16));
        let i = self.place(p);
        within_section(p.x % 16, p.z % 16, p.y % 16);
        split_place(s, r);
        assert(i == s * 4096 + r);
        assert(self.cell(i) == p) by {
            let c = self.section_pos_of(p);
            assert(self.section_pos(i / 4096) == c);
            assert(c.x * 16 + p.x % 16 == p.x);
            assert(c.y * 16 + p.y % 16 == p.y);
            assert(c.z * 16 + p.z % 16 == p.z);
        }
        assert(i < self.count());
    }

    /// Every place has a block, and the place of that block is the place.
    pub proof fn cell_round_trip(self, i: int)
        requires
            self.wf(),
            0 <= i < self.count(),
        ensures
            self.has(self.cell(i)),
            self.place(self.cell(i)) == i,
            self.section_of(self.cell(i)) == i / 4096,
    {
        reveal(Shape::place);
        reveal(Shape::cell);
        let s = i / 4096;
        let r = i % 4096;
        assert(0 <= s < self.sections());
        self.section_pos_round_trip(s);
        let c = self.section_pos(s);
        let p = self.cell(i);
        parts_of_place(r);
        block_of(c.x, r % 16, self.nx);
        block_of(c.y, r / 256, self.ny);
        block_of(c.z, (r / 16) % 16, self.nz);
        assert(self.section_pos_of(p) == c);
        assert(i == s * 4096 + r);
    }

    /// Two blocks with one place are one block.
    pub proof fn places_differ(self, p: Pos, q: Pos)
        requires
            self.wf(),
            self.has(p),
            self.has(q),
            self.place(p) == self.place(q),
        ensures
            p == q,
    {
        self.place_round_trip(p);
        self.place_round_trip(q);
    }

    /// Neighbours are neighbours of each other.
    pub proof fn next_and_back(self, i: int, d: int)
        requires
            self.wf(),
            0 <= i < self.count(),
            0 <= d < 6,
        ensures
            match self.next(i, d) {
                Some(j) => 0 <= j < self.count() && self.next(j, opposite(d)) == Some(i) && self.cell(j) == self.cell(i).step(d),
                None => true,
            },
    {
        self.cell_round_trip(i);
        let p = self.cell(i);
        let q = p.step(d);
        step_and_back(p, d);
        if self.has(q) {
            self.place_round_trip(q);
        }
    }
}

} // verus!
