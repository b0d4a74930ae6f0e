//! Light by breadth-first flood fill under the standard rules: a whole world's, that
//! of some sections, and that of one light added or removed.
//!
//! Light is one byte per cell, stored like the blocks: sky light in the high half,
//! block light in the low half.
use std::collections::VecDeque;

use vstd::prelude::*;

use crate::lighting::cpu_light::{coords, neighbour_place};
use crate::lighting::light_model::{
    block_levels, is_light, is_opacities, losses, open_sky, open_sky_step, sky_levels, sky_light_is_settled,
    sky_seed, sky_seeds, standard_emissions, standard_opacities,
};
use crate::lighting::world::{emission, opacity, standard_emission, standard_opacity, World};
use crate::voxel::flood::{
    active, flood_from_seeds_settles, flooded, flooding, is_drops, is_levels, max, raise, raised_by, room, spent,
};
use crate::voxel::nibble::{halves, high, high_of, join, joined, low, low_of};
use crate::voxel::shape::{pos_of, Pos, Shape, DIR_STEP};

verus! {

/// The byte with this sky light and this block light.
pub fn pack(sky: u8, block: u8) -> (b: u8)
    requires
        sky <= 15,
        block <= 15,
    ensures
        b == joined(sky as int, block as int),
        high(b) == sky,
        low(b) == block,
{
    join(sky, block)
}

/// The levels of one channel: the sky's or the blocks'.
pub open spec fn channel(light: Seq<u8>, sky: bool) -> Seq<int> {
    if sky {
        sky_levels(light)
    } else {
        block_levels(light)
    }
}

/// What light loses on entering each cell, by the standard rules.
pub open spec fn standard_losses(world: &World) -> Seq<int> {
    losses(standard_opacities(world))
}

/// The standard losses are losses.
pub proof fn standard_facts(world: &World)
    requires
        world.wf(),
    ensures
        is_opacities(world.shape(), standard_opacities(world)),
        is_drops(world.shape(), standard_losses(world)),
{
}

/// Bytes are levels, in both channels.
pub proof fn channel_is_levels(sh: Shape, light: Seq<u8>, sky: bool)
    requires
        light.len() == sh.count(),
    ensures
        is_levels(sh, channel(light, sky)),
{
    assert forall|i: int| 0 <= i < light.len() implies 0 <= #[trigger] channel(light, sky)[i] <= 15 by {
        halves(light[i]);
    }
}

/// What light loses on entering a block: at least 1.
pub fn dec(state: u16) -> (loss: i32)
    ensures
        loss == max(1, standard_opacity(state)),
{
    let o = opacity(state);
    if o > 1 {
        o as i32
    } else {
        1
    }
}

/// A byte with one half changed.
pub open spec fn with_half(b: u8, sky: bool, v: int) -> int {
    if sky {
        joined(v, low(b))
    } else {
        joined(high(b), v)
    }
}

fn half(b: u8, sky: bool) -> (v: u8)
    ensures
        v == (if sky {
            high(b)
        } else {
            low(b)
        }),
        v <= 15,
{
    if sky {
        high_of(b)
    } else {
        low_of(b)
    }
}

pub(crate) fn set_half(b: u8, sky: bool, v: u8) -> (r: u8)
    requires
        v <= 15,
    ensures
        r == with_half(b, sky, v as int),
        sky ==> high(r) == v && low(r) == low(b),
        !sky ==> low(r) == v && high(r) == high(b),
{
    if sky {
        join(v, low_of(b))
    } else {
        join(high_of(b), v)
    }
}

/// Changing one half of one byte changes one cell of one channel.
pub proof fn one_cell_changes(light: Seq<u8>, i: int, b: u8, sky: bool, v: int)
    requires
        0 <= i < light.len(),
        sky ==> high(b) == v && low(b) == low(light[i]),
        !sky ==> low(b) == v && high(b) == high(light[i]),
    ensures
        channel(light.update(i, b), sky) == channel(light, sky).update(i, v),
        channel(light.update(i, b), !sky) == channel(light, !sky),
{
    assert(channel(light.update(i, b), sky) =~= channel(light, sky).update(i, v));
    assert(channel(light.update(i, b), !sky) =~= channel(light, !sky));
}

/// The places of some positions.
pub open spec fn places(sh: Shape, queue: Seq<[i32; 3]>) -> Set<int> {
    Set::new(|i: int| exists|k: int| 0 <= k < queue.len() && sh.place(pos_of(#[trigger] queue[k])) == i)
}

/// Every position is in the world.
pub open spec fn in_world(sh: Shape, queue: Seq<[i32; 3]>) -> bool {
    forall|k: int| 0 <= k < queue.len() ==> sh.has(pos_of(#[trigger] queue[k]))
}

/// A flood fill of one world.
pub struct Flood<'a> {
    pub world: &'a World,
}

/// Each cell that may raise a neighbour is queued, or raises none.
pub open spec fn watched(
    sh: Shape,
    drop: Seq<int>,
    start: Set<int>,
    g: Seq<int>,
    f: Seq<int>,
    queue: Seq<[i32; 3]>,
    but: int,
) -> bool {
    forall|j: int|
        0 <= j < sh.count() && j != but && #[trigger] active(start, g, f, j) ==> places(sh, queue).contains(j) || spent(
            sh,
            drop,
            f,
            j,
        )
}

impl<'a> Flood<'a> {
    /// Where the cell at a position is stored, if it is in the world.
    pub fn at(&self, p: [i32; 3]) -> (i: Option<usize>)
        requires
            self.world.wf(),
        ensures
            match i {
                Some(i) => self.world.shape().has(pos_of(p)) && i == self.world.shape().place(pos_of(p)) && i
                    < self.world.blocks@.len(),
                None => !self.world.shape().has(pos_of(p)),
            },
    {
        if self.world.in_bounds(p[0], p[1], p[2]) {
            Some(self.world.index(p[0] as usize, p[1] as usize, p[2] as usize))
        } else {
            None
        }
    }

    /// Spreads one channel from every cell in `queue`.
    pub fn spread(&self, light: &mut Vec<u8>, queue: VecDeque<[i32; 3]>, sky: bool)
        requires
            self.world.wf(),
            old(light)@.len() == self.world.blocks@.len(),
            in_world(self.world.shape(), queue@),
        ensures
            final(light)@.len() == old(light)@.len(),
            channel(final(light)@, !sky) == channel(old(light)@, !sky),
            flooded(
                self.world.shape(),
                standard_losses(self.world),
                places(self.world.shape(), queue@),
                channel(old(light)@, sky),
                channel(final(light)@, sky),
            ),
    {
        let ghost sh = self.world.shape();
        let ghost drop = standard_losses(self.world);
        let ghost start = places(sh, queue@);
        let ghost g = channel(light@, sky);
        let mut queue = queue;
        proof {
            standard_facts(self.world);
            channel_is_levels(sh, light@, sky);
            assert forall|i: int| 0 <= i < sh.count() implies #[trigger] raised_by(sh, drop, start, g, g, i) by {}
        }
        loop
            invariant
                self.world.wf(),
                sh == self.world.shape(),
                drop == standard_losses(self.world),
                is_drops(sh, drop),
                light@.len() == sh.count(),
                in_world(sh, queue@),
                channel(light@, !sky) == channel(old(light)@, !sky),
                flooding(sh, drop, start, g, channel(light@, sky)),
                watched(sh, drop, start, g, channel(light@, sky), queue@, -1),
                forall|k: int|
                    0 <= k < queue@.len() ==> active(start, g, channel(light@, sky), sh.place(pos_of(#[trigger] queue@[k]))),
            ensures
                light@.len() == sh.count(),
                channel(light@, !sky) == channel(old(light)@, !sky),
                flooding(sh, drop, start, g, channel(light@, sky)),
                forall|j: int|
                    0 <= j < sh.count() && active(start, g, channel(light@, sky), j) ==> #[trigger] spent(
                        sh,
                        drop,
                        channel(light@, sky),
                        j,
                    ),
            decreases 2 * room(channel(light@, sky)) + queue@.len(),
        {
            let ghost before = queue@;
            let ghost f0 = channel(light@, sky);
            let p = match queue.pop_front() {
                Some(p) => p,
                None => {
                    proof {
                        assert forall|j: int| 0 <= j < sh.count() && active(start, g, f0, j) implies #[trigger] spent(sh, drop, f0, j) by {
                            assert(!places(sh, queue@).contains(j));
                        }
                    }
                    break;
                },
            };
            assert(p == before[0]);
            let ghost i = sh.place(pos_of(p));
            proof {
                sh.place_round_trip(pos_of(p));
                assert(in_world(sh, queue@)) by {
                    assert forall|k: int| 0 <= k < queue@.len() implies sh.has(pos_of(#[trigger] queue@[k])) by {
                        assert(queue@[k] == before[k + 1]);
                    }
                }
                assert(watched(sh, drop, start, g, f0, queue@, i)) by {
                    assert forall|j: int| 0 <= j < sh.count() && j != i && #[trigger] active(start, g, f0, j) implies places(
                        sh,
                        queue@,
                    ).contains(j) || spent(sh, drop, f0, j) by {
                        if places(sh, before).contains(j) {
                            let k = choose|k: int| 0 <= k < before.len() && sh.place(pos_of(#[trigger] before[k])) == j;
                            assert(queue@[k - 1] == before[k]);
                        }
                    }
                }
                assert forall|k: int| 0 <= k < queue@.len() implies active(start, g, f0, sh.place(pos_of(#[trigger] queue@[k]))) by {
                    assert(queue@[k] == before[k + 1]);
                }
            }
            let at = self.world.index(p[0] as usize, p[1] as usize, p[2] as usize);
            let v = half(light[at], sky) as i32;
            let mut d: usize = 0;
            while d < 6
                invariant
                    d <= 6,
                    self.world.wf(),
                    sh == self.world.shape(),
                    drop == standard_losses(self.world),
                    is_drops(sh, drop),
                    light@.len() == sh.count(),
                    sh.has(pos_of(p)),
                    sh.cell(i) == pos_of(p),
                    i == sh.place(pos_of(p)),
                    0 <= i < sh.count(),
                    0 <= v <= 15,
                    channel(light@, sky)[i] == v,
                    active(start, g, channel(light@, sky), i),
                    in_world(sh, queue@),
                    channel(light@, !sky) == channel(old(light)@, !sky),
                    flooding(sh, drop, start, g, channel(light@, sky)),
                    watched(sh, drop, start, g, channel(light@, sky), queue@, i),
                    forall|k: int|
                        0 <= k < queue@.len() ==> active(start, g, channel(light@, sky), sh.place(pos_of(#[trigger] queue@[k]))),
                    forall|e: int|
                        0 <= e < d ==> match #[trigger] sh.next(i, e) {
                            Some(j) => channel(light@, sky)[j] >= v - drop[j],
                            None => true,
                        },
                    2 * room(channel(light@, sky)) + queue@.len() < 2 * room(f0) + before.len(),
                decreases 6 - d,
            {
                let ghost f = channel(light@, sky);
                let ghost queued = queue@;
                let ghost bytes = light@;
                let found = neighbour_place(self.world, p, d);
                if let Some(j) = found {
                    let step = DIR_STEP[d];
                    let n = [p[0] + step[0], p[1] + step[1], p[2] + step[2]];
                    proof {
                        sh.next_and_back(i, d as int);
                        assert(pos_of(n) == pos_of(p).step(d as int));
                    }
                    let nv = v - dec(self.world.blocks[j]);
                    assert(drop[j as int] == v - nv);
                    if nv > half(light[j], sky) as i32 {
                        proof {
                            raise(sh, drop, start, g, f, i, d as int, j as int, nv as int);
                        }
                        let b = set_half(light[j], sky, nv as u8);
                        light.set(j, b);
                        queue.push_back(n);
                        proof {
                            one_cell_changes(bytes, j as int, b, sky, nv as int);
                            let h = channel(light@, sky);
                            assert(h == f.update(j as int, nv as int));
                            assert(queue@[queued.len() as int] == n);
                            assert(places(sh, queue@).contains(j as int));
                            assert(in_world(sh, queue@)) by {
                                assert forall|k: int| 0 <= k < queue@.len() implies sh.has(pos_of(#[trigger] queue@[k])) by {
                                    if k < queued.len() {
                                        assert(queue@[k] == queued[k]);
                                    }
                                }
                            }
                            assert forall|k: int| 0 <= k < sh.count() && k != i && #[trigger] active(start, g, h, k) implies places(
                                sh,
                                queue@,
                            ).contains(k) || spent(sh, drop, h, k) by {
                                if k != j {
                                    assert(active(start, g, f, k));
                                    if places(sh, queued).contains(k) {
                                        let m = choose|m: int| 0 <= m < queued.len() && sh.place(pos_of(#[trigger] queued[m])) == k;
                                        assert(queue@[m] == queued[m]);
                                    }
                                }
                            }
                            assert forall|k: int| 0 <= k < queue@.len() implies active(
                                start,
                                g,
                                h,
                                sh.place(pos_of(#[trigger] queue@[k])),
                            ) by {
                                if k < queued.len() {
                                    assert(queue@[k] == queued[k]);
                                    let m = sh.place(pos_of(queued[k]));
                                    sh.place_round_trip(pos_of(queued[k]));
                                    assert(active(start, g, f, m));
                                    assert(f[m] >= g[m]);
                                } else {
                                    assert(f[j as int] >= g[j as int]);
                                }
                            }
                            assert(active(start, g, h, i));
                        }
                    }
                }
                proof {
                    let h = channel(light@, sky);
                    assert forall|e: int| 0 <= e < d + 1 implies (match #[trigger] sh.next(i, e) {
                        Some(j) => h[j] >= v - drop[j],
                        None => true,
                    }) by {
                        sh.next_and_back(i, e);
                        match sh.next(i, e) {
                            Some(m) => {
                                assert(h[m] >= f[m]);
                            },
                            None => {},
                        }
                    }
                }
                d += 1;
            }
            proof {
                let h = channel(light@, sky);
                assert(spent(sh, drop, h, i)) by {
                    assert forall|e: int| 0 <= e < 6 implies (match #[trigger] sh.next(i, e) {
                        Some(j) => h[j] >= h[i] - drop[j],
                        None => true,
                    }) by {
                        sh.next_and_back(i, e);
                    }
                }
            }
        }
    }
}

/// The lowest y of a column from which every cell up to the top of the world takes
/// nothing.
pub open spec fn is_floor(sh: Shape, opac: Seq<int>, x: int, z: int, y: int) -> bool {
    &&& 0 <= y <= sh.ny * 16
    &&& open_sky(sh, opac, Pos { x, y, z })
    &&& y > 0 ==> opac[sh.place(Pos { x, y: y - 1, z })] != 0
}

/// There is one floor for each column of the world.
pub open spec fn has_columns(sh: Shape, floor: Seq<u32>) -> bool {
    floor.len() == (sh.nx * 16) * (sh.nz * 16)
}

/// The entry of a column.
pub open spec fn column(sh: Shape, x: int, z: int) -> int {
    x + sh.nx * 16 * z
}

/// `floor` holds each column's floor.
pub open spec fn is_sky_floor(sh: Shape, opac: Seq<int>, floor: Seq<u32>) -> bool {
    &&& has_columns(sh, floor)
    &&& forall|x: int, z: int|
        0 <= x < sh.nx * 16 && 0 <= z < sh.nz * 16 ==> is_floor(sh, opac, x, z, #[trigger] floor[column(sh, x, z)] as int)
}

/// Columns have entries of their own.
proof fn columns_differ(sh: Shape, x: int, z: int, x2: int, z2: int)
    requires
        sh.wf(),
        0 <= x < sh.nx * 16,
        0 <= z < sh.nz * 16,
        0 <= x2 < sh.nx * 16,
        0 <= z2 < sh.nz * 16,
    ensures
        0 <= column(sh, x, z) < (sh.nx * 16) * (sh.nz * 16),
        0 <= sh.nx * 16 * z,
        column(sh, x, z) == column(sh, x2, z2) ==> x == x2 && z == z2,
{
    let w = sh.nx * 16;
    let h = sh.nz * 16;
    assert(0 <= w * z) by (nonlinear_arith)
        requires
            0 <= w,
            0 <= z,
    ;
    assert(x + w * z < w * h) by (nonlinear_arith)
        requires
            0 <= x < w,
            0 <= z < h,
    ;
    if x + w * z == x2 + w * z2 {
        assert(z == z2) by (nonlinear_arith)
            requires
                x + w * z == x2 + w * z2,
                0 <= x < w,
                0 <= x2 < w,
        ;
    }
}

/// The lowest y of each column from which every cell up to the top of the world
/// takes nothing. The entry of a column is `x + size_x * z`.
pub fn sky_floor(world: &World) -> (out: Vec<u32>)
    requires
        world.wf(),
        (world.nx * 16) * (world.nz * 16) <= usize::MAX,
    ensures
        is_sky_floor(world.shape(), standard_opacities(world), out@),
{
    let ghost sh = world.shape();
    let ghost opac = standard_opacities(world);
    let size = world.size_blocks();
    let (sx, sy, sz) = (size[0], size[1], size[2]);
    let mut out: Vec<u32> = vec![0u32; sx * sz];
    let mut z: usize = 0;
    while z < sz
        invariant
            z <= sz,
            sx == sh.nx * 16,
            sy == sh.ny * 16,
            sz == sh.nz * 16,
            world.wf(),
            sh == world.shape(),
            opac == standard_opacities(world),
            has_columns(sh, out@),
            forall|x2: int, z2: int|
                0 <= x2 < sh.nx * 16 && 0 <= z2 < z ==> is_floor(sh, opac, x2, z2, #[trigger] out@[column(sh, x2, z2)] as int),
        decreases sz - z,
    {
        let mut x: usize = 0;
        while x < sx
            invariant
                x <= sx,
                z < sz,
                sx == sh.nx * 16,
                sy == sh.ny * 16,
                sz == sh.nz * 16,
                world.wf(),
                sh == world.shape(),
                opac == standard_opacities(world),
                has_columns(sh, out@),
                forall|x2: int, z2: int|
                    0 <= x2 < sh.nx * 16 && 0 <= z2 < sh.nz * 16 && (z2 < z || (z2 == z && x2 < x)) ==> is_floor(
                        sh,
                        opac,
                        x2,
                        z2,
                        #[trigger] out@[column(sh, x2, z2)] as int,
                    ),
            decreases sx - x,
        {
            let mut y: usize = sy;
            while y > 0 && opacity(world.blocks[world.index(x, y - 1, z)]) == 0
                invariant
                    x < sx,
                    z < sz,
                    y <= sy,
                    sx == sh.nx * 16,
                    sy == sh.ny * 16,
                    sz == sh.nz * 16,
                    world.wf(),
                    sh == world.shape(),
                    opac == standard_opacities(world),
                    open_sky(sh, opac, Pos { x: x as int, y: y as int, z: z as int }),
                decreases y,
            {
                y -= 1;
                proof {
                    let p = Pos { x: x as int, y: y as int, z: z as int };
                    open_sky_step(sh, opac, p);
                    sh.place_round_trip(p);
                    assert(p.step(3) == (Pos { x: x as int, y: y + 1, z: z as int }));
                }
            }
            proof {
                if y > 0 {
                    sh.place_round_trip(Pos { x: x as int, y: y - 1, z: z as int });
                }
                columns_differ(sh, x as int, z as int, x as int, z as int);
                assert(sx * z <= column(sh, x as int, z as int) < out.len());
            }
            let ghost before = out@;
            out.set(x + sx * z, y as u32);
            proof {
                assert forall|x2: int, z2: int|
                    0 <= x2 < sh.nx * 16 && 0 <= z2 < sh.nz * 16 && (z2 < z || (z2 == z && x2 < x + 1)) implies is_floor(
                    sh,
                    opac,
                    x2,
                    z2,
                    #[trigger] out@[column(sh, x2, z2)] as int,
                ) by {
                    columns_differ(sh, x as int, z as int, x2, z2);
                    columns_differ(sh, x2, z2, x as int, z as int);
                    if x2 == x && z2 == z {
                    } else {
                        assert(out@[column(sh, x2, z2)] == before[column(sh, x2, z2)]);
                    }
                }
            }
            x += 1;
        }
        z += 1;
    }
    out
}

/// What a cell has of the sky's light before any floods, by its column's floor.
pub open spec fn seeded_sky(world: &World, floor: Seq<u32>, p: Pos) -> int {
    let sh = world.shape();
    let b = world.at(p);
    let open = if standard_opacity(b) == 0 && p.y >= floor[column(sh, p.x, p.z)] {
        15int
    } else {
        0
    };
    if p.y + 1 == sh.ny * 16 {
        max(open, 15 - max(1, standard_opacity(b)))
    } else {
        open
    }
}

/// A cell's light before any floods.
pub open spec fn seeded(world: &World, floor: Seq<u32>, p: Pos) -> int {
    joined(seeded_sky(world, floor, p), standard_emission(world.at(p)))
}

/// A cell's seed: its emission, and sky 15 in an open column. A top-layer cell also
/// takes what the open sky above the world gives it.
pub fn seed(world: &World, floor: &Vec<u32>, x: usize, y: usize, z: usize) -> (b: u8)
    requires
        world.wf(),
        has_columns(world.shape(), floor@),
        world.shape().has(Pos { x: x as int, y: y as int, z: z as int }),
    ensures
        b == seeded(world, floor@, Pos { x: x as int, y: y as int, z: z as int }),
        high(b) == seeded_sky(world, floor@, Pos { x: x as int, y: y as int, z: z as int }),
        low(b) == standard_emission(world.at(Pos { x: x as int, y: y as int, z: z as int })),
{
    let size = world.size_blocks();
    let b = world.get(x as i32, y as i32, z as i32);
    proof {
        columns_differ(world.shape(), x as int, z as int, x as int, z as int);
        assert(size[0] * z <= column(world.shape(), x as int, z as int) < floor.len());
    }
    let mut sky: u8 = if opacity(b) == 0 && y as u32 >= floor[x + size[0] * z] {
        15
    } else {
        0
    };
    if y + 1 == size[1] {
        let above = 15 - dec(b);
        if above > sky as i32 {
            sky = above as u8;
        }
    }
    pack(sky, emission(b))
}

/// Where the floors are right, a cell's seed is what the sky and the block give it.
pub proof fn seeds_are_right(world: &World, floor: Seq<u32>, i: int)
    requires
        world.wf(),
        is_sky_floor(world.shape(), standard_opacities(world), floor),
        0 <= i < world.shape().count(),
    ensures
        seeded_sky(world, floor, world.shape().cell(i)) == sky_seed(world.shape(), standard_opacities(world), i),
        standard_emission(world.at(world.shape().cell(i))) == standard_emissions(world)[i],
{
    let sh = world.shape();
    let opac = standard_opacities(world);
    let p = sh.cell(i);
    sh.cell_round_trip(i);
    let f = floor[column(sh, p.x, p.z)] as int;
    assert(is_floor(sh, opac, p.x, p.z, f));
    let q = Pos { x: p.x, y: f, z: p.z };
    assert(open_sky(sh, opac, p) <==> p.y >= f) by {
        if p.y >= f {
            assert forall|y: int| p.y <= y < sh.ny * 16 implies opac[#[trigger] sh.place(Pos { y, ..p })] == 0 by {
                assert((Pos { y, ..p }) == (Pos { y, ..q }));
                assert(opac[sh.place(Pos { y, ..q })] == 0);
            }
        } else {
            let r = Pos { x: p.x, y: f - 1, z: p.z };
            assert(r == (Pos { y: f - 1, ..p }));
            assert(opac[sh.place(Pos { y: f - 1, ..p })] != 0);
        }
    }
    if open_sky(sh, opac, p) {
        assert(p == (Pos { y: p.y, ..p }));
        assert(opac[sh.place(Pos { y: p.y, ..p })] == 0);
    }
}

pub(crate) fn copy_queue(queue: &VecDeque<[i32; 3]>) -> (out: VecDeque<[i32; 3]>)
    ensures
        out@ == queue@,
{
    let mut out: VecDeque<[i32; 3]> = VecDeque::new();
    let mut k: usize = 0;
    while k < queue.len()
        invariant
            k <= queue@.len(),
            out@ == queue@.take(k as int),
        decreases queue@.len() - k,
    {
        assert(queue@.take(k + 1) =~= queue@.take(k as int).push(queue@[k as int]));
        out.push_back(queue[k]);
        k += 1;
    }
    assert(queue@.take(k as int) =~= queue@);
    out
}

/// Both channels, spread from `queue`.
pub(crate) fn spread_both(world: &World, light: &mut Vec<u8>, queue: VecDeque<[i32; 3]>)
    requires
        world.wf(),
        old(light)@.len() == world.blocks@.len(),
        in_world(world.shape(), queue@),
    ensures
        final(light)@.len() == old(light)@.len(),
        forall|sky: bool|
            flooded(
                world.shape(),
                standard_losses(world),
                places(world.shape(), queue@),
                channel(old(light)@, sky),
                #[trigger] channel(final(light)@, sky),
            ),
{
    let f = Flood { world };
    let ghost g = light@;
    let again = copy_queue(&queue);
    f.spread(light, queue, false);
    let ghost mid = light@;
    f.spread(light, again, true);
    assert(channel(light@, !true) == channel(mid, !true));
    assert(channel(mid, !false) == channel(g, !false));
    assert forall|sky: bool| flooded(
        world.shape(),
        standard_losses(world),
        places(world.shape(), queue@),
        channel(old(light)@, sky),
        #[trigger] channel(light@, sky),
    ) by {
        assert(sky == true || sky == false);
    }
}

/// The whole world's light, from nothing.
pub fn full(world: &World) -> (light: Vec<u8>)
    requires
        world.wf(),
        (world.nx * 16) * (world.nz * 16) <= usize::MAX,
    ensures
        is_light(world.shape(), standard_opacities(world), standard_emissions(world), light@),
{
    let ghost sh = world.shape();
    let ghost opac = standard_opacities(world);
    let ghost emit = standard_emissions(world);
    let floor = sky_floor(world);
    let mut light: Vec<u8> = Vec::new();
    let mut queue: VecDeque<[i32; 3]> = VecDeque::new();
    let n = world.blocks.len();
    let mut i: usize = 0;
    while i < n
        invariant
            i <= n,
            n == world.blocks@.len(),
            world.wf(),
            sh == world.shape(),
            opac == standard_opacities(world),
            emit == standard_emissions(world),
            is_sky_floor(sh, opac, floor@),
            light@.len() == i,
            in_world(sh, queue@),
            forall|j: int| 0 <= j < i ==> high(#[trigger] light@[j]) == sky_seed(sh, opac, j) && low(light@[j]) == emit[j],
            forall|j: int| 0 <= j < i && #[trigger] light@[j] != 0 ==> places(sh, queue@).contains(j),
        decreases n - i,
    {
        let p = coords(world, i);
        let s = seed(world, &floor, p[0] as usize, p[1] as usize, p[2] as usize);
        let ghost queued = queue@;
        let ghost held = light@;
        proof {
            seeds_are_right(world, floor@, i as int);
            sh.cell_round_trip(i as int);
        }
        light.push(s);
        if s != 0 {
            queue.push_back(p);
        }
        proof {
            if s != 0 {
                assert(queue@[queued.len() as int] == p);
                assert(places(sh, queue@).contains(i as int));
            }
            assert forall|j: int| 0 <= j < i + 1 && #[trigger] light@[j] != 0 implies places(sh, queue@).contains(j) by {
                if j < i {
                    assert(held[j] != 0);
                    let k = choose|k: int| 0 <= k < queued.len() && sh.place(pos_of(#[trigger] queued[k])) == j;
                    assert(queue@[k] == queued[k]);
                }
            }
        }
        i += 1;
    }
    let ghost base = light@;
    let ghost start = places(sh, queue@);
    spread_both(world, &mut light, queue);
    proof {
        standard_facts(world);
        let drop = standard_losses(world);
        assert(channel(base, true) =~= sky_seeds(sh, opac));
        assert(channel(base, false) =~= emit);
        assert forall|i: int| 0 <= i < sh.count() && #[trigger] channel(base, true)[i] > 0 implies start.contains(i) by {
            assert(base[i] != 0);
        }
        assert forall|i: int| 0 <= i < sh.count() && #[trigger] channel(base, false)[i] > 0 implies start.contains(i) by {
            assert(base[i] != 0);
        }
        flood_from_seeds_settles(sh, channel(base, true), drop, start, channel(light@, true));
        flood_from_seeds_settles(sh, channel(base, false), drop, start, channel(light@, false));
        sky_light_is_settled(sh, opac, sky_levels(light@));
    }
    light
}

} // verus!
