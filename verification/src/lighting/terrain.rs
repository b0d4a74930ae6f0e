//! Test worlds: terrain, and terrain with lights.
use vstd::prelude::*;

use crate::lighting::world::{
    World, AIR, DIRT, GLASS, GLOWSTONE, GRASS, LAVA, SAND, SEA_LANTERN, SNOW, STONE, TORCH, WATER,
};
use crate::voxel::ground::{column_height, ground_at, ground_height, layer_at, Ground};
use crate::voxel::shape::{Pos, Shape};

verus! {

/// The block that a layer of ground is.
pub open spec fn block_of_ground(g: Option<Ground>) -> u16 {
    match g {
        None => AIR,
        Some(Ground::Sand) => SAND,
        Some(Ground::Grass) => GRASS,
        Some(Ground::Snow) => SNOW,
        Some(Ground::Dirt) => DIRT,
        Some(Ground::Stone) => STONE,
    }
}

fn ground_block(g: Ground) -> (b: u16)
    ensures
        b == block_of_ground(Some(g)),
{
    match g {
        Ground::Sand => SAND,
        Ground::Grass => GRASS,
        Ground::Snow => SNOW,
        Ground::Dirt => DIRT,
        Ground::Stone => STONE,
    }
}

/// The block of the terrain at `p`, for a height of each column, x first, and a
/// flag for each place.
pub open spec fn terrain_block(sh: Shape, heights: Seq<usize>, caves: Seq<bool>, p: Pos) -> u16 {
    if sh.has(p) {
        block_of_ground(
            ground_at(sh.ny * 16, heights[p.x + sh.nx * 16 * p.z] as int, caves[sh.place(p)], p.y),
        )
    } else {
        AIR
    }
}

/// The columns before (x, z), x slowest.
pub open spec fn column_before(p: Pos, x: int, z: int) -> bool {
    p.x < x || (p.x == x && p.z < z)
}

/// A column's number is in the list of columns.
proof fn column_number_fits(sh: Shape, x: int, z: int)
    requires
        sh.wf(),
        0 <= x < sh.nx * 16,
        0 <= z < sh.nz * 16,
    ensures
        0 <= sh.nx * 16 * z,
        x + sh.nx * 16 * z < (sh.nx * 16) * (sh.nz * 16),
{
    assert(0 <= sh.nx * 16 * z) by (nonlinear_arith)
        requires
            0 <= sh.nx,
            0 <= z,
    ;
    assert(x + sh.nx * 16 * z < (sh.nx * 16) * (sh.nz * 16)) by (nonlinear_arith)
        requires
            0 <= x < sh.nx * 16,
            z + 1 <= sh.nz * 16,
    ;
}

impl World {
    /// Terrain of a few kinds of block by height, with caves carved out of it: the
    /// height of column (x, z) is at `x + 16 * nx * z`, and whether a cell is in a
    /// cave at its place.
    pub fn terrain(nx: usize, ny: usize, nz: usize, heights: &Vec<usize>, caves: &Vec<bool>) -> (w: World)
        requires
            nx * ny * nz * 4096 <= usize::MAX,
            nx * ny * nz <= u32::MAX,
            nx * 16 <= i32::MAX,
            1 <= ny,
            ny * 16 <= i32::MAX,
            nz * 16 <= i32::MAX,
            heights@.len() == (nx * 16) * (nz * 16),
            caves@.len() == nx * ny * nz * 4096,
        ensures
            w.wf(),
            w.nx == nx,
            w.ny == ny,
            w.nz == nz,
            forall|p: Pos| #[trigger] w.at(p) == terrain_block(w.shape(), heights@, caves@, p),
    {
        let mut w = World::new(nx, ny, nz);
        let ghost sh = w.shape();
        let sx = nx * 16;
        let sy = ny * 16;
        let sz = nz * 16;
        let mut x: usize = 0;
        while x < sx
            invariant
                x <= sx,
                w.wf(),
                w.shape() == sh,
                sx == sh.nx * 16,
                sy == sh.ny * 16,
                sz == sh.nz * 16,
                1 <= sh.ny,
                heights@.len() == (sh.nx * 16) * (sh.nz * 16),
                caves@.len() == sh.count(),
                forall|p: Pos| #[trigger]
                    w.at(p) == (if column_before(p, x as int, 0) {
                        terrain_block(sh, heights@, caves@, p)
                    } else {
                        AIR
                    }),
            decreases sx - x,
        {
            let mut z: usize = 0;
            while z < sz
                invariant
                    x < sx,
                    z <= sz,
                    w.wf(),
                    w.shape() == sh,
                    sx == sh.nx * 16,
                    sy == sh.ny * 16,
                    sz == sh.nz * 16,
                    1 <= sh.ny,
                    heights@.len() == (sh.nx * 16) * (sh.nz * 16),
                    caves@.len() == sh.count(),
                    forall|p: Pos| #[trigger]
                        w.at(p) == (if column_before(p, x as int, z as int) {
                            terrain_block(sh, heights@, caves@, p)
                        } else {
                            AIR
                        }),
                decreases sz - z,
            {
                proof {
                    column_number_fits(sh, x as int, z as int);
                    assert(x + sh.nx * 16 * z < heights.len());
                }
                let h = column_height(sy, heights[x + sx * z]);
                let mut y: usize = 0;
                while y <= h
                    invariant
                        x < sx,
                        z < sz,
                        h < sy,
                        y <= h + 1,
                        h == ground_height(sy as int, heights@[x + sh.nx * 16 * z] as int),
                        w.wf(),
                        w.shape() == sh,
                        sx == sh.nx * 16,
                        sy == sh.ny * 16,
                        sz == sh.nz * 16,
                        sy <= i32::MAX,
                        caves@.len() == sh.count(),
                        forall|p: Pos| #[trigger]
                            w.at(p) == (if column_before(p, x as int, z as int) || (p.x == x && p.z == z && p.y < y) {
                                terrain_block(sh, heights@, caves@, p)
                            } else {
                                AIR
                            }),
                    decreases h + 1 - y,
                {
                    let ghost p = Pos { x: x as int, y: y as int, z: z as int };
                    let i = w.index(x, y, z);
                    let cave = y > 2 && caves[i];
                    if !cave {
                        w.set(x, y, z, ground_block(layer_at(sy, h, y)));
                    }
                    assert(w.at(p) == terrain_block(sh, heights@, caves@, p));
                    y += 1;
                }
                z += 1;
            }
            x += 1;
        }
        w
    }
}

/// Where the lit terrain put things, in blocks.
#[derive(Clone, Debug)]
pub struct Spots {
    pub plaza: [usize; 3],
    pub lava: [usize; 3],
    pub water: [usize; 3],
    pub room: [usize; 3],
    pub torches: Vec<[usize; 3]>,
}

/// The ground of the plaza: grass on dirt on stone, and air above.
pub open spec fn plaza_block(h: int, y: int) -> u16 {
    if y < h - 3 {
        STONE
    } else if y < h {
        DIRT
    } else if y == h {
        GRASS
    } else {
        AIR
    }
}

/// A torch stands at (x, z), counted from the centre.
pub open spec fn torch_at(x: int, z: int) -> bool {
    ||| (x == -5 || x == 5) && (z == -5 || z == 5)
    ||| x == 0 && (z == -9 || z == 9)
}

/// The block of the lit terrain at (x, y, z), x and z counted from the centre and y
/// from the height of the plaza; `old` is the terrain's.
pub open spec fn lit_block(x: int, y: int, z: int, h: int, old: u16) -> u16 {
    if x == 0 && z == 12 && (y == 1 || y == 2) {
        AIR
    } else if x == 0 && y == 3 && z == 15 {
        GLOWSTONE
    } else if x == 0 && y == 4 && z == 15 {
        AIR
    } else if -3 <= x <= 3 && 12 <= z <= 18 && 1 <= y <= 4 {
        if x == -3 || x == 3 || z == 12 || z == 18 || y == 4 {
            STONE
        } else {
            AIR
        }
    } else if -4 <= x < 4 && 1 <= y < 4 && z == -14 {
        GLASS
    } else if y == 1 && torch_at(x, z) {
        TORCH
    } else if x == 11 && y == -4 && z == 0 {
        SEA_LANTERN
    } else if 6 <= x < 16 && -5 <= z < 5 && -3 <= y <= 0 {
        WATER
    } else if 6 <= x < 16 && -5 <= z < 5 && y == -4 {
        SAND
    } else if -14 <= x < -8 && -3 <= z < 3 && (y == 0 || y == -1) {
        LAVA
    } else if -20 <= x < 20 && -20 <= z < 20 {
        plaza_block(h, h + y)
    } else {
        old
    }
}

/// The height of the plaza: that of the centre column, at least 8.
pub open spec fn plaza_height(w: &World) -> int {
    match w.highest((w.nx * 16) / 2, (w.nz * 16) / 2, w.ny * 16) {
        Some(y) if y > 8 => y as int,
        _ => 8,
    }
}

/// The ring of torches around (cx, cz), at height `y`.
fn torch_ring(cx: usize, y: usize, cz: usize) -> (out: Vec<[usize; 3]>)
    requires
        9 <= cx <= i32::MAX,
        9 <= cz <= i32::MAX,
    ensures
        out@ == torch_spots(cx as int, y as int, cz as int),
{
    let mut out: Vec<[usize; 3]> = Vec::new();
    out.push([cx - 5, y, cz - 5]);
    out.push([cx + 5, y, cz - 5]);
    out.push([cx - 5, y, cz + 5]);
    out.push([cx + 5, y, cz + 5]);
    out.push([cx, y, cz - 9]);
    out.push([cx, y, cz + 9]);
    proof {
        let s = torch_spots(cx as int, y as int, cz as int);
        assert forall|k: int| 0 <= k < 6 implies out@[k] == s[k] by {
            assert(out@[k]@ =~= s[k]@);
        }
        assert(out@ =~= s);
    }
    out
}

/// The six torches.
pub open spec fn torch_spots(cx: int, y: int, cz: int) -> Seq<[usize; 3]> {
    seq![
        [(cx - 5) as usize, y as usize, (cz - 5) as usize],
        [(cx + 5) as usize, y as usize, (cz - 5) as usize],
        [(cx - 5) as usize, y as usize, (cz + 5) as usize],
        [(cx + 5) as usize, y as usize, (cz + 5) as usize],
        [cx as usize, y as usize, (cz - 9) as usize],
        [cx as usize, y as usize, (cz + 9) as usize],
    ]
}

impl World {
    /// Makes every block of a box the same: from `lo` up to `hi`, `hi` excluded.
    pub fn fill(&mut self, lo: [usize; 3], hi: [usize; 3], b: u16)
        requires
            old(self).wf(),
            lo[0] <= hi[0] <= old(self).nx * 16,
            lo[1] <= hi[1] <= old(self).ny * 16,
            lo[2] <= hi[2] <= old(self).nz * 16,
        ensures
            final(self).wf(),
            final(self).shape() == old(self).shape(),
            forall|q: Pos| #[trigger]
                final(self).at(q) == (if lo[0] <= q.x < hi[0] && lo[1] <= q.y < hi[1] && lo[2] <= q.z < hi[2] {
                    b
                } else {
                    old(self).at(q)
                }),
    {
        let ghost sh = self.shape();
        let mut x = lo[0];
        while x < hi[0]
            invariant
                lo[0] <= x <= hi[0] <= sh.nx * 16,
                lo[1] <= hi[1] <= sh.ny * 16,
                lo[2] <= hi[2] <= sh.nz * 16,
                self.wf(),
                self.shape() == sh,
                forall|q: Pos| #[trigger]
                    self.at(q) == (if lo[0] <= q.x < x && lo[1] <= q.y < hi[1] && lo[2] <= q.z < hi[2] {
                        b
                    } else {
                        old(self).at(q)
                    }),
            decreases hi[0] - x,
        {
            let mut z = lo[2];
            while z < hi[2]
                invariant
                    lo[0] <= x < hi[0] <= sh.nx * 16,
                    lo[1] <= hi[1] <= sh.ny * 16,
                    lo[2] <= z <= hi[2] <= sh.nz * 16,
                    self.wf(),
                    self.shape() == sh,
                    forall|q: Pos| #[trigger]
                        self.at(q) == (if lo[1] <= q.y < hi[1] && ((lo[0] <= q.x < x && lo[2] <= q.z < hi[2]) || (q.x == x
                            && lo[2] <= q.z < z)) {
                            b
                        } else {
                            old(self).at(q)
                        }),
                decreases hi[2] - z,
            {
                let mut y = lo[1];
                while y < hi[1]
                    invariant
                        lo[0] <= x < hi[0] <= sh.nx * 16,
                        lo[1] <= y <= hi[1] <= sh.ny * 16,
                        lo[2] <= z < hi[2] <= sh.nz * 16,
                        self.wf(),
                        self.shape() == sh,
                        forall|q: Pos| #[trigger]
                            self.at(q) == (if (lo[1] <= q.y < hi[1] && ((lo[0] <= q.x < x && lo[2] <= q.z < hi[2]) || (
                            q.x == x && lo[2] <= q.z < z))) || (q.x == x && q.z == z && lo[1] <= q.y < y) {
                                b
                            } else {
                                old(self).at(q)
                            }),
                    decreases hi[1] - y,
                {
                    self.set(x, y, z, b);
                    y += 1;
                }
                z += 1;
            }
            x += 1;
        }
    }

    /// A terrain with light sources and water at fixed places near its centre: a plaza,
    /// a lava pool, a water pool with a sea lantern on its floor, a ring of torches, a
    /// glass wall, and a glowstone in a covered room. Also says where they are.
    pub fn lit_terrain(terrain: World) -> (out: (World, Spots))
        requires
            terrain.wf(),
            terrain.nx >= 3,
            terrain.nz >= 3,
            plaza_height(&terrain) + 4 < terrain.ny * 16,
        ensures
            ({
                let h = plaza_height(&terrain);
                let cx = (terrain.nx * 16) / 2;
                let cz = (terrain.nz * 16) / 2;
                let spots = out.1;
                &&& out.0.wf()
                &&& out.0.shape() == terrain.shape()
                &&& forall|p: Pos|
                    terrain.shape().has(p) ==> #[trigger] out.0.at(p) == lit_block(
                        p.x - cx,
                        p.y - h,
                        p.z - cz,
                        h,
                        terrain.at(p),
                    )
                &&& spots.plaza@ == seq![cx as usize, (h + 1) as usize, cz as usize]
                &&& spots.lava@ == seq![(cx - 11) as usize, h as usize, cz as usize]
                &&& spots.water@ == seq![(cx + 11) as usize, h as usize, cz as usize]
                &&& spots.room@ == seq![cx as usize, (h + 1) as usize, (cz + 15) as usize]
                &&& spots.torches@ == torch_spots(cx, h + 1, cz)
                &&& out.0.at(spot(spots.lava)) == LAVA
                &&& out.0.at(spot(spots.water)) == WATER
                &&& out.0.at(spot(spots.plaza)) == AIR
                &&& out.0.at(under(spots.plaza)) == GRASS
                &&& out.0.at(spot(spots.room)) == AIR
                &&& out.0.at(under(spots.room)) == GRASS
                &&& forall|k: int| 0 <= k < spots.torches@.len() ==> out.0.at(spot(#[trigger] spots.torches@[k])) == TORCH
            }),
    {
        let mut w = terrain;
        let ghost t = terrain;
        let sy = w.ny * 16;
        let cx = (w.nx * 16) / 2;
        let cz = (w.nz * 16) / 2;
        let h = match w.top(cx, cz) {
            Some(y) => if y > 8 {
                y
            } else {
                8
            },
            None => 8,
        };
        assert(h == plaza_height(&t));
        w.fill([cx - 20, 0, cz - 20], [cx + 20, h - 3, cz + 20], STONE);
        w.fill([cx - 20, h - 3, cz - 20], [cx + 20, h, cz + 20], DIRT);
        w.fill([cx - 20, h, cz - 20], [cx + 20, h + 1, cz + 20], GRASS);
        w.fill([cx - 20, h + 1, cz - 20], [cx + 20, sy, cz + 20], AIR);
        let ghost plaza = w;
        assert forall|p: Pos| t.shape().has(p) implies #[trigger] plaza.at(p) == (if -20 <= p.x - cx < 20 && -20 <= p.z - cz
            < 20 {
            plaza_block(h as int, p.y)
        } else {
            t.at(p)
        }) by {}
        w.fill([cx - 14, h - 1, cz - 3], [cx - 8, h + 1, cz + 3], LAVA);
        w.fill([cx + 6, h - 3, cz - 5], [cx + 16, h + 1, cz + 5], WATER);
        w.fill([cx + 6, h - 4, cz - 5], [cx + 16, h - 3, cz + 5], SAND);
        w.set(cx + 11, h - 4, cz, SEA_LANTERN);
        let torches = torch_ring(cx, h + 1, cz);
        w.set(cx - 5, h + 1, cz - 5, TORCH);
        w.set(cx + 5, h + 1, cz - 5, TORCH);
        w.set(cx - 5, h + 1, cz + 5, TORCH);
        w.set(cx + 5, h + 1, cz + 5, TORCH);
        w.set(cx, h + 1, cz - 9, TORCH);
        w.set(cx, h + 1, cz + 9, TORCH);
        w.fill([cx - 4, h + 1, cz - 14], [cx + 4, h + 4, cz - 13], GLASS);
        w.fill([cx - 3, h + 1, cz + 12], [cx + 4, h + 5, cz + 19], STONE);
        w.fill([cx - 2, h + 1, cz + 13], [cx + 3, h + 4, cz + 18], AIR);
        w.set(cx, h + 4, cz + 15, AIR);
        w.set(cx, h + 3, cz + 15, GLOWSTONE);
        w.set(cx, h + 1, cz + 12, AIR);
        w.set(cx, h + 2, cz + 12, AIR);
        let spots = Spots {
            plaza: [cx, h + 1, cz],
            lava: [cx - 11, h, cz],
            water: [cx + 11, h, cz],
            room: [cx, h + 1, cz + 15],
            torches,
        };
        assert forall|p: Pos| t.shape().has(p) implies #[trigger] w.at(p) == lit_block(
            p.x - cx,
            p.y - h,
            p.z - cz,
            h as int,
            t.at(p),
        ) by {
            assert(plaza.at(p) == (if -20 <= p.x - cx < 20 && -20 <= p.z - cz < 20 {
                plaza_block(h as int, p.y)
            } else {
                t.at(p)
            }));
        }
        proof {
            let h = h as int;
            lit_at(&w, &t, h, spot(spots.lava));
            lit_at(&w, &t, h, spot(spots.water));
            lit_at(&w, &t, h, spot(spots.plaza));
            lit_at(&w, &t, h, under(spots.plaza));
            lit_at(&w, &t, h, spot(spots.room));
            lit_at(&w, &t, h, under(spots.room));
            assert forall|k: int| 0 <= k < spots.torches@.len() implies w.at(spot(#[trigger] spots.torches@[k])) == TORCH by {
                lit_at(&w, &t, h, spot(spots.torches@[k]));
            }
        }
        (w, spots)
    }
}

/// A spot as a position.
pub open spec fn spot(p: [usize; 3]) -> Pos {
    Pos { x: p[0] as int, y: p[1] as int, z: p[2] as int }
}

/// The position under a spot.
pub open spec fn under(p: [usize; 3]) -> Pos {
    Pos { x: p[0] as int, y: p[1] - 1, z: p[2] as int }
}

/// A block of a lit terrain is what it says there.
proof fn lit_at(w: &World, t: &World, h: int, p: Pos)
    requires
        t.shape().has(p),
        forall|p: Pos|
            t.shape().has(p) ==> #[trigger] w.at(p) == lit_block(
                p.x - (t.nx * 16) / 2,
                p.y - h,
                p.z - (t.nz * 16) / 2,
                h,
                t.at(p),
            ),
    ensures
        w.at(p) == lit_block(p.x - (t.nx * 16) / 2, p.y - h, p.z - (t.nz * 16) / 2, h, t.at(p)),
{
}

} // verus!
