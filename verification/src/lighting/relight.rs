//! Light kept right through edits: some sections lit again, and one block light
//! added, removed or alone.
use std::collections::VecDeque;

use vstd::prelude::*;

use crate::lighting::cpu_light::{coords, neighbour_place};
use crate::lighting::light_cpu::{
    channel, has_columns, in_world, places, seed, seeded, seeded_sky, spread_both, standard_losses,
};
use crate::lighting::world::{standard_emission, World};
use crate::voxel::flood::{flooded, max};
use crate::voxel::nibble::{high, low};
use crate::voxel::shape::{opposite, pos_of, Pos, Shape, DIR_STEP};
use crate::voxel::sorted::ascends;

verus! {

/// The cell at place `i` is in a listed section.
pub open spec fn listed(sections: Seq<u32>, i: int) -> bool {
    exists|k: int| 0 <= k < sections.len() && #[trigger] sections[k] == i / 4096
}

/// Light whose listed sections are back at their seeds.
pub open spec fn reset_light(world: &World, floor: Seq<u32>, light: Seq<u8>, sections: Seq<u32>) -> Seq<u8> {
    Seq::new(
        light.len(),
        |i: int|
            if listed(sections, i) {
                seeded(world, floor, world.shape().cell(i)) as u8
            } else {
                light[i]
            },
    )
}

/// The cell at place `i` is not in a listed section, but has a neighbour that is.
pub open spec fn borders(sh: Shape, sections: Seq<u32>, i: int) -> bool {
    !listed(sections, i) && exists|d: int|
        0 <= d < 6 && (match #[trigger] sh.next(i, d) {
            Some(j) => listed(sections, j),
            None => false,
        })
}

/// Where light floods from when the listed sections are lit again: the cells in them
/// that have a seed, and the cells around them.
pub open spec fn frontier(world: &World, floor: Seq<u32>, sections: Seq<u32>) -> Set<int> {
    Set::new(
        |i: int|
            0 <= i < world.shape().count() && ((listed(sections, i) && seeded(world, floor, world.shape().cell(i)) != 0)
                || borders(world.shape(), sections, i)),
    )
}

/// `out` is what floods from the frontier into light whose listed sections are reset.
pub open spec fn recomputed(world: &World, floor: Seq<u32>, light: Seq<u8>, sections: Seq<u32>, out: Seq<u8>) -> bool {
    &&& out.len() == light.len()
    &&& forall|sky: bool|
        flooded(
            world.shape(),
            standard_losses(world),
            frontier(world, floor, sections),
            channel(reset_light(world, floor, light, sections), sky),
            #[trigger] channel(out, sky),
        )
}

/// Puts one section back to its seeds, and queues where light floods into it from.
fn reset_section(
    world: &World,
    floor: &Vec<u32>,
    light: &mut Vec<u8>,
    s: u32,
    inside: &Vec<bool>,
    queue: &mut VecDeque<[i32; 3]>,
)
    requires
        world.wf(),
        has_columns(world.shape(), floor@),
        old(light)@.len() == world.blocks@.len(),
        s < world.shape().sections(),
        inside@.len() == world.shape().sections(),
        in_world(world.shape(), old(queue)@),
    ensures
        final(light)@.len() == old(light)@.len(),
        forall|i: int|
            0 <= i < final(light)@.len() ==> #[trigger] final(light)@[i] == (if i / 4096 == s {
                seeded(world, floor@, world.shape().cell(i)) as u8
            } else {
                old(light)@[i]
            }),
        in_world(world.shape(), final(queue)@),
        forall|j: int| #[trigger]
            places(world.shape(), final(queue)@).contains(j) <==> places(world.shape(), old(queue)@).contains(j)
                || queued_for(world, floor@, s as int, inside@, j),
{
    let ghost sh = world.shape();
    assert(s * 4096 + 4096 <= light.len());
    let base = s as usize * 4096;
    let mut r: usize = 0;
    while r < 4096
        invariant
            r <= 4096,
            base == s * 4096,
            base + 4096 <= sh.count(),
            world.wf(),
            sh == world.shape(),
            has_columns(sh, floor@),
            light@.len() == old(light)@.len(),
            light@.len() == sh.count(),
            s < sh.sections(),
            inside@.len() == sh.sections(),
            in_world(sh, queue@),
            forall|i: int|
                0 <= i < light@.len() ==> #[trigger] light@[i] == (if base <= i < base + r {
                    seeded(world, floor@, sh.cell(i)) as u8
                } else {
                    old(light)@[i]
                }),
            forall|j: int| #[trigger]
                places(sh, queue@).contains(j) <==> places(sh, old(queue)@).contains(j) || (exists|i: int|
                    base <= i < base + r && #[trigger] queued_by(world, floor@, inside@, i, j)),
        decreases 4096 - r,
    {
        let i = base + r;
        let ghost q0 = queue@;
        let p = coords(world, i);
        proof {
            sh.cell_round_trip(i as int);
        }
        let v = seed(world, floor, p[0] as usize, p[1] as usize, p[2] as usize);
        light.set(i, v);
        if v != 0 {
            queue.push_back(p);
            proof {
                pushed(sh, q0, p);
            }
        }
        let ghost q1 = queue@;
        let mut d: usize = 0;
        while d < 6
            invariant
                d <= 6,
                world.wf(),
                sh == world.shape(),
                i < sh.count(),
                sh.has(pos_of(p)),
                pos_of(p) == sh.cell(i as int),
                sh.place(pos_of(p)) == i,
                inside@.len() == sh.sections(),
                in_world(sh, queue@),
                forall|j: int| #[trigger]
                    places(sh, queue@).contains(j) <==> places(sh, q1).contains(j) || (exists|e: int|
                        0 <= e < d && #[trigger] sh.next(i as int, e) == Some(j) && !inside@[j / 4096]),
            decreases 6 - d,
        {
            let ghost q2 = queue@;
            let found = neighbour_place(world, p, d);
            proof {
                sh.next_and_back(i as int, d as int);
            }
            if let Some(j) = found {
                let step = DIR_STEP[d];
                let n = [p[0] + step[0], p[1] + step[1], p[2] + step[2]];
                assert(pos_of(n) == pos_of(p).step(d as int));
                proof {
                    sh.place_round_trip(pos_of(n));
                    assert(j / 4096 < sh.sections());
                }
                if !inside[j / 4096] {
                    queue.push_back(n);
                    proof {
                        pushed(sh, q2, n);
                    }
                }
            }
            proof {
                assert forall|j: int| #[trigger]
                    places(sh, queue@).contains(j) <==> places(sh, q1).contains(j) || (exists|e: int|
                        0 <= e < d + 1 && #[trigger] sh.next(i as int, e) == Some(j) && !inside@[j / 4096]) by {
                    assert(places(sh, q2).contains(j) <==> places(sh, q1).contains(j) || (exists|e: int|
                        0 <= e < d && #[trigger] sh.next(i as int, e) == Some(j) && !inside@[j / 4096]));
                    if sh.next(i as int, d as int) == Some(j) && !inside@[j / 4096] {
                        assert(places(sh, queue@).contains(j));
                    }
                }
            }
            d += 1;
        }
        proof {
            assert forall|j: int| #[trigger]
                places(sh, queue@).contains(j) <==> places(sh, old(queue)@).contains(j) || (exists|k: int|
                    base <= k < base + r + 1 && #[trigger] queued_by(world, floor@, inside@, k, j)) by {
                assert(places(sh, q0).contains(j) <==> places(sh, old(queue)@).contains(j) || (exists|k: int|
                    base <= k < base + r && #[trigger] queued_by(world, floor@, inside@, k, j)));
                assert(queued_by(world, floor@, inside@, i as int, j) <==> (j == i && v != 0) || (exists|e: int|
                    0 <= e < 6 && #[trigger] sh.next(i as int, e) == Some(j) && !inside@[j / 4096]));
                if places(sh, queue@).contains(j) {
                    if places(sh, q0).contains(j) {
                        if !places(sh, old(queue)@).contains(j) {
                            let k = choose|k: int| base <= k < base + r && #[trigger] queued_by(world, floor@, inside@, k, j);
                            assert(base <= k < base + r + 1);
                        }
                    } else {
                        assert(queued_by(world, floor@, inside@, i as int, j));
                    }
                }
                if exists|k: int| base <= k < base + r + 1 && #[trigger] queued_by(world, floor@, inside@, k, j) {
                    let k = choose|k: int| base <= k < base + r + 1 && #[trigger] queued_by(world, floor@, inside@, k, j);
                    if k < base + r {
                        assert(places(sh, q0).contains(j));
                        assert(places(sh, q1).contains(j));
                    } else {
                        if j == i && v != 0 {
                            assert(places(sh, q1).contains(j));
                        }
                    }
                }
            }
        }
        r += 1;
    }
}

/// Resetting the cell at place `i` queues the one at `j`.
pub open spec fn queued_by(world: &World, floor: Seq<u32>, inside: Seq<bool>, i: int, j: int) -> bool {
    ||| j == i && seeded(world, floor, world.shape().cell(i)) as u8 != 0
    ||| exists|e: int| 0 <= e < 6 && #[trigger] world.shape().next(i, e) == Some(j) && !inside[j / 4096]
}

/// Resetting section `s` queues the cell at `j`.
pub open spec fn queued_for(world: &World, floor: Seq<u32>, s: int, inside: Seq<bool>, j: int) -> bool {
    exists|i: int| s * 4096 <= i < s * 4096 + 4096 && #[trigger] queued_by(world, floor, inside, i, j)
}

/// A queue holds what it held, and what is pushed.
pub proof fn pushed(sh: Shape, q: Seq<[i32; 3]>, p: [i32; 3])
    requires
        in_world(sh, q),
        sh.has(pos_of(p)),
    ensures
        in_world(sh, q.push(p)),
        forall|j: int| #[trigger] places(sh, q.push(p)).contains(j) <==> places(sh, q).contains(j) || j == sh.place(pos_of(p)),
{
    let r = q.push(p);
    assert(r[q.len() as int] == p);
    assert forall|k: int| 0 <= k < r.len() implies sh.has(pos_of(#[trigger] r[k])) by {
        if k < q.len() {
            assert(r[k] == q[k]);
        }
    }
    assert forall|j: int| #[trigger] places(sh, r).contains(j) <==> places(sh, q).contains(j) || j == sh.place(pos_of(p)) by {
        if places(sh, r).contains(j) {
            let k = choose|k: int| 0 <= k < r.len() && sh.place(pos_of(#[trigger] r[k])) == j;
            if k < q.len() {
                assert(q[k] == r[k]);
            }
        }
        if places(sh, q).contains(j) {
            let k = choose|k: int| 0 <= k < q.len() && sh.place(pos_of(#[trigger] q[k])) == j;
            assert(r[k] == q[k]);
        }
    }
}

/// The listed sections, as a flag for each section.
fn section_flags(world: &World, sections: &Vec<u32>) -> (inside: Vec<bool>)
    requires
        world.wf(),
        forall|k: int| 0 <= k < sections@.len() ==> #[trigger] sections@[k] < world.shape().sections(),
    ensures
        inside@.len() == world.shape().sections(),
        forall|i: int| 0 <= i < world.shape().count() ==> (#[trigger] inside@[i / 4096] <==> listed(sections@, i)),
{
    let n = world.section_count();
    let mut inside: Vec<bool> = Vec::new();
    let mut s: usize = 0;
    while s < n
        invariant
            s <= n,
            inside@.len() == s,
            forall|k: int| 0 <= k < s ==> !(#[trigger] inside@[k]),
        decreases n - s,
    {
        inside.push(false);
        s += 1;
    }
    let mut k: usize = 0;
    while k < sections.len()
        invariant
            k <= sections@.len(),
            inside@.len() == n,
            forall|j: int| 0 <= j < sections@.len() ==> #[trigger] sections@[j] < n,
            forall|t: int|
                0 <= t < n ==> (#[trigger] inside@[t] <==> exists|j: int| 0 <= j < k && #[trigger] sections@[j] == t),
        decreases sections@.len() - k,
    {
        let ghost before = inside@;
        inside.set(sections[k] as usize, true);
        proof {
            assert forall|t: int| 0 <= t < n implies (#[trigger] inside@[t] <==> exists|j: int|
                0 <= j < k + 1 && #[trigger] sections@[j] == t) by {
                assert(before[t] <==> exists|j: int| 0 <= j < k && #[trigger] sections@[j] == t);
                if t == sections@[k as int] {
                    assert(sections@[k as int] == t);
                } else if before[t] {
                    let j = choose|j: int| 0 <= j < k && #[trigger] sections@[j] == t;
                    assert(0 <= j < k + 1 && sections@[j] == t);
                }
            }
        }
        k += 1;
    }
    proof {
        assert forall|i: int| 0 <= i < world.shape().count() implies (#[trigger] inside@[i / 4096] <==> listed(
            sections@,
            i,
        )) by {
            assert(0 <= i / 4096 < n);
        }
    }
    inside
}

/// What resetting the first `k` listed sections queues, all of them listed in `all`.
pub open spec fn queued_upto(world: &World, floor: Seq<u32>, all: Seq<u32>, k: int, inside: Seq<bool>, j: int) -> bool {
    exists|m: int| 0 <= m < k && #[trigger] queued_for(world, floor, all[m] as int, inside, j)
}

/// A cell's seed fits a byte.
pub proof fn seeded_fits(world: &World, floor: Seq<u32>, p: Pos)
    ensures
        0 <= seeded(world, floor, p) <= 255,
        high(seeded(world, floor, p) as u8) == seeded_sky(world, floor, p),
        low(seeded(world, floor, p) as u8) == standard_emission(world.at(p)),
{
}

/// Every reset section queues what the frontier holds.
proof fn queued_is_frontier(world: &World, floor: Seq<u32>, sections: Seq<u32>, inside: Seq<bool>, j: int)
    requires
        world.wf(),
        forall|k: int| 0 <= k < sections.len() ==> #[trigger] sections[k] < world.shape().sections(),
        forall|i: int| 0 <= i < world.shape().count() ==> (#[trigger] inside[i / 4096] <==> listed(sections, i)),
    ensures
        queued_upto(world, floor, sections, sections.len() as int, inside, j) <==> frontier(world, floor, sections).contains(j),
{
    let sh = world.shape();
    if queued_upto(world, floor, sections, sections.len() as int, inside, j) {
        let m = choose|m: int|
            0 <= m < sections.len() && #[trigger] queued_for(world, floor, sections[m] as int, inside, j);
        let s = sections[m] as int;
        let i = choose|i: int| s * 4096 <= i < s * 4096 + 4096 && #[trigger] queued_by(world, floor, inside, i, j);
        assert(i / 4096 == s);
        assert(s < sh.sections());
        assert(0 <= i < sh.count());
        assert(listed(sections, i));
        seeded_fits(world, floor, sh.cell(i));
        if !(j == i && seeded(world, floor, sh.cell(i)) as u8 != 0) {
            let e = choose|e: int| 0 <= e < 6 && #[trigger] sh.next(i, e) == Some(j) && !inside[j / 4096];
            sh.next_and_back(i, e);
            assert(sh.next(j, opposite(e)) == Some(i));
            assert(!listed(sections, j));
            assert(borders(sh, sections, j));
        }
    }
    if frontier(world, floor, sections).contains(j) {
        if listed(sections, j) && seeded(world, floor, sh.cell(j)) != 0 {
            let m = choose|k: int| 0 <= k < sections.len() && #[trigger] sections[k] == j / 4096;
            seeded_fits(world, floor, sh.cell(j));
            assert(queued_by(world, floor, inside, j, j));
            assert(queued_for(world, floor, sections[m] as int, inside, j));
        } else {
            let d = choose|d: int|
                0 <= d < 6 && (match #[trigger] sh.next(j, d) {
                    Some(i) => listed(sections, i),
                    None => false,
                });
            let i = sh.next(j, d)->0;
            sh.next_and_back(j, d);
            let m = choose|k: int| 0 <= k < sections.len() && #[trigger] sections[k] == i / 4096;
            assert(sh.next(i, opposite(d)) == Some(j));
            assert(!inside[j / 4096]);
            assert(queued_by(world, floor, inside, i, j));
            assert(queued_for(world, floor, sections[m] as int, inside, j));
        }
    }
}

/// Lights the listed sections again: they go back to their seeds, and light floods in
/// from inside them and from the cells around them. `floor` is the sky floor of
/// `world`, kept up to date by the caller.
pub fn recompute_sections(world: &World, floor: &Vec<u32>, light: &mut Vec<u8>, sections: &Vec<u32>)
    requires
        world.wf(),
        has_columns(world.shape(), floor@),
        old(light)@.len() == world.blocks@.len(),
        forall|k: int| 0 <= k < sections@.len() ==> #[trigger] sections@[k] < world.shape().sections(),
    ensures
        recomputed(world, floor@, old(light)@, sections@, final(light)@),
{
    let ghost sh = world.shape();
    let inside = section_flags(world, sections);
    let mut queue: VecDeque<[i32; 3]> = VecDeque::new();
    let mut k: usize = 0;
    assert(places(sh, queue@) =~= Set::empty());
    while k < sections.len()
        invariant
            k <= sections@.len(),
            world.wf(),
            sh == world.shape(),
            has_columns(sh, floor@),
            light@.len() == old(light)@.len(),
            light@.len() == sh.count(),
            inside@.len() == sh.sections(),
            in_world(sh, queue@),
            forall|j: int| 0 <= j < sections@.len() ==> #[trigger] sections@[j] < sh.sections(),
            forall|i: int|
                0 <= i < light@.len() ==> #[trigger] light@[i] == (if exists|j: int|
                    0 <= j < k && #[trigger] sections@[j] == i / 4096 {
                    seeded(world, floor@, sh.cell(i)) as u8
                } else {
                    old(light)@[i]
                }),
            forall|j: int| #[trigger]
                places(sh, queue@).contains(j) <==> queued_upto(world, floor@, sections@, k as int, inside@, j),
        decreases sections@.len() - k,
    {
        let ghost q0 = queue@;
        let ghost l0 = light@;
        reset_section(world, floor, light, sections[k], &inside, &mut queue);
        proof {
            let s = sections@[k as int];
            assert forall|i: int| 0 <= i < light@.len() implies #[trigger] light@[i] == (if exists|j: int|
                0 <= j < k + 1 && #[trigger] sections@[j] == i / 4096 {
                seeded(world, floor@, sh.cell(i)) as u8
            } else {
                old(light)@[i]
            }) by {
                assert(l0[i] == (if exists|j: int| 0 <= j < k && #[trigger] sections@[j] == i / 4096 {
                    seeded(world, floor@, sh.cell(i)) as u8
                } else {
                    old(light)@[i]
                }));
                if i / 4096 == s {
                    assert(sections@[k as int] == i / 4096);
                } else if exists|j: int| 0 <= j < k && #[trigger] sections@[j] == i / 4096 {
                    let j = choose|j: int| 0 <= j < k && #[trigger] sections@[j] == i / 4096;
                    assert(0 <= j < k + 1 && sections@[j] == i / 4096);
                }
            }
            assert forall|j: int| #[trigger]
                places(sh, queue@).contains(j) <==> queued_upto(
                    world,
                    floor@,
                    sections@,
                    k + 1,
                    inside@,
                    j,
                ) by {
                assert(places(sh, q0).contains(j) <==> queued_upto(world, floor@, sections@, k as int, inside@, j));
                if queued_upto(world, floor@, sections@, k as int, inside@, j) {
                    let m = choose|m: int|
                        0 <= m < k && #[trigger] queued_for(world, floor@, sections@[m] as int, inside@, j);
                    assert(0 <= m < k + 1 && queued_for(world, floor@, sections@[m] as int, inside@, j));
                }
                if queued_for(world, floor@, s as int, inside@, j) {
                    assert(queued_for(world, floor@, sections@[k as int] as int, inside@, j));
                }
            }
        }
        k += 1;
    }
    proof {
        assert(light@ =~= reset_light(world, floor@, old(light)@, sections@)) by {
            assert forall|i: int| 0 <= i < light@.len() implies #[trigger] light@[i] == reset_light(
                world,
                floor@,
                old(light)@,
                sections@,
            )[i] by {
                assert(listed(sections@, i) <==> exists|j: int| 0 <= j < k && #[trigger] sections@[j] == i / 4096);
            }
        }
        assert forall|j: int|
            places(sh, queue@).contains(j) == frontier(world, floor@, sections@).contains(j) by {
            queued_is_frontier(world, floor@, sections@, inside@, j);
            assert(places(sh, queue@).contains(j) <==> queued_upto(world, floor@, sections@, k as int, inside@, j));
        }
        assert(places(sh, queue@) =~= frontier(world, floor@, sections@));
    }
    spread_both(world, light, queue);
}

/// The sections of `n` in a row, from `c` on towards +X.
pub open spec fn row_of_sections(sh: Shape, c: Pos, n: int) -> Seq<u32> {
    Seq::new(n as nat, |k: int| sh.section(Pos { x: c.x + k, ..c }) as u32)
}

/// The sections of `m` rows of `n`, from `c` on towards +Z.
pub open spec fn layer_of_sections(sh: Shape, c: Pos, n: int, m: int) -> Seq<u32>
    decreases m,
{
    if m <= 0 {
        Seq::empty()
    } else {
        layer_of_sections(sh, c, n, m - 1) + row_of_sections(sh, Pos { z: c.z + m - 1, ..c }, n)
    }
}

/// The sections of `h` layers of `m` rows of `n`, from `c` on upwards.
pub open spec fn box_of_sections(sh: Shape, c: Pos, n: int, m: int, h: int) -> Seq<u32>
    decreases h,
{
    if h <= 0 {
        Seq::empty()
    } else {
        box_of_sections(sh, c, n, m, h - 1) + layer_of_sections(sh, Pos { y: c.y + h - 1, ..c }, n, m)
    }
}

/// The first section that 15 blocks below `a` reaches.
pub open spec fn reach_lo(a: int) -> int {
    max(a - 15, 0) / 16
}

/// The last section that 15 blocks above `a` reaches, of `n`.
pub open spec fn reach_hi(a: int, n: int) -> int {
    (if a + 15 < n * 16 - 1 {
        a + 15
    } else {
        n * 16 - 1
    }) / 16
}

/// The smallest of three.
pub open spec fn least(a: int, b: int, c: int) -> int {
    if a <= b && a <= c {
        a
    } else if b <= c {
        b
    } else {
        c
    }
}

/// The sections within 15 blocks of `p`, or of the stretch of its column between two
/// heights.
pub open spec fn within_reach(sh: Shape, p: Pos, old_floor: int, new_floor: int) -> Seq<u32> {
    let x = reach_lo(p.x);
    let y = reach_lo(least(p.y, old_floor, new_floor));
    let z = reach_lo(p.z);
    box_of_sections(
        sh,
        Pos { x, y, z },
        reach_hi(p.x, sh.nx) - x + 1,
        reach_hi(p.z, sh.nz) - z + 1,
        reach_hi(max(p.y, max(old_floor, new_floor)), sh.ny) - y + 1,
    )
}

/// Sections that are numbered row by row, layer by layer: those of the row at `z` of the layer
/// at `y` start here.
spec fn row_start(sh: Shape, y: int, z: int) -> int {
    sh.nx * (z + sh.nz * y)
}

/// The sections of a layer's rows ascend, and are numbered within their rows.
proof fn layer_ascends(sh: Shape, c: Pos, n: int, m: int)
    requires
        sh.wf(),
        sh.sections() <= u32::MAX,
        0 <= c.x,
        0 <= c.z,
        0 <= c.y < sh.ny,
        0 <= n,
        0 <= m,
        c.x + n <= sh.nx,
        c.z + m <= sh.nz,
    ensures
        ascends(layer_of_sections(sh, c, n, m)),
        forall|k: int|
            0 <= k < layer_of_sections(sh, c, n, m).len() ==> row_start(sh, c.y, c.z)
                <= #[trigger] layer_of_sections(sh, c, n, m)[k] < row_start(sh, c.y, c.z + m),
    decreases m,
{
    if m > 0 {
        layer_ascends(sh, c, n, m - 1);
        let before = layer_of_sections(sh, c, n, m - 1);
        let last = Pos { z: c.z + m - 1, ..c };
        let row = row_of_sections(sh, last, n);
        let all = layer_of_sections(sh, c, n, m);
        let start = row_start(sh, c.y, last.z);
        assert(row_start(sh, c.y, c.z + m) == start + sh.nx) by (nonlinear_arith)
            requires
                row_start(sh, c.y, c.z + m) == sh.nx * (c.z + m + sh.nz * c.y),
                start == sh.nx * (c.z + m - 1 + sh.nz * c.y),
        ;
        assert(row_start(sh, c.y, c.z) <= start) by (nonlinear_arith)
            requires
                row_start(sh, c.y, c.z) == sh.nx * (c.z + sh.nz * c.y),
                start == sh.nx * (c.z + m - 1 + sh.nz * c.y),
                0 <= sh.nx,
                1 <= m,
        ;
        assert forall|k: int| 0 <= k < n implies #[trigger] row[k] == start + c.x + k by {
            reveal(Shape::section);
            sh.section_round_trip(Pos { x: c.x + k, ..last });
        }
        assert forall|k: int| 0 <= k < all.len() implies row_start(sh, c.y, c.z) <= #[trigger] all[k] < start + sh.nx by {
            if k < before.len() {
                assert(all[k] == before[k]);
            } else {
                assert(all[k] == row[k - before.len()]);
            }
        }
        assert forall|i: int, j: int| 0 <= i < j < all.len() implies all[i] < all[j] by {
            if j < before.len() {
                assert(all[i] == before[i] && all[j] == before[j]);
            } else {
                assert(all[j] == row[j - before.len()]);
                if i < before.len() {
                    assert(all[i] == before[i]);
                } else {
                    assert(all[i] == row[i - before.len()]);
                }
            }
        }
    }
}

/// The sections of a box ascend, and are numbered within its layers.
proof fn box_ascends(sh: Shape, c: Pos, n: int, m: int, h: int)
    requires
        sh.wf(),
        sh.sections() <= u32::MAX,
        0 <= c.x,
        0 <= c.z,
        0 <= c.y,
        0 <= n,
        0 <= m,
        0 <= h,
        c.x + n <= sh.nx,
        c.z + m <= sh.nz,
        c.y + h <= sh.ny,
    ensures
        ascends(box_of_sections(sh, c, n, m, h)),
        forall|k: int|
            0 <= k < box_of_sections(sh, c, n, m, h).len() ==> #[trigger] box_of_sections(sh, c, n, m, h)[k]
                < row_start(sh, c.y + h, 0),
    decreases h,
{
    if h > 0 {
        box_ascends(sh, c, n, m, h - 1);
        let before = box_of_sections(sh, c, n, m, h - 1);
        let last = Pos { y: c.y + h - 1, ..c };
        layer_ascends(sh, last, n, m);
        let layer = layer_of_sections(sh, last, n, m);
        let all = box_of_sections(sh, c, n, m, h);
        assert(row_start(sh, last.y, 0) <= row_start(sh, last.y, c.z)) by (nonlinear_arith)
            requires
                row_start(sh, last.y, 0) == sh.nx * (0 + sh.nz * last.y),
                row_start(sh, last.y, c.z) == sh.nx * (c.z + sh.nz * last.y),
                0 <= sh.nx,
                0 <= c.z,
        ;
        assert(row_start(sh, last.y, c.z + m) <= row_start(sh, c.y + h, 0)) by (nonlinear_arith)
            requires
                row_start(sh, last.y, c.z + m) == sh.nx * (c.z + m + sh.nz * last.y),
                row_start(sh, c.y + h, 0) == sh.nx * (0 + sh.nz * (last.y + 1)),
                0 <= sh.nx,
                c.z + m <= sh.nz,
        ;
        assert(row_start(sh, last.y, 0) <= row_start(sh, c.y + h, 0)) by (nonlinear_arith)
            requires
                row_start(sh, last.y, 0) == sh.nx * (0 + sh.nz * last.y),
                row_start(sh, c.y + h, 0) == sh.nx * (0 + sh.nz * (last.y + 1)),
                0 <= sh.nx,
                0 <= sh.nz,
        ;
        assert forall|k: int| 0 <= k < all.len() implies #[trigger] all[k] < row_start(sh, c.y + h, 0) by {
            if k < before.len() {
                assert(all[k] == before[k]);
            } else {
                assert(all[k] == layer[k - before.len()]);
            }
        }
        assert forall|i: int, j: int| 0 <= i < j < all.len() implies all[i] < all[j] by {
            if j < before.len() {
                assert(all[i] == before[i] && all[j] == before[j]);
            } else {
                assert(all[j] == layer[j - before.len()]);
                if i < before.len() {
                    assert(all[i] == before[i]);
                } else {
                    assert(all[i] == layer[i - before.len()]);
                }
            }
        }
    }
}

/// The first section that 15 blocks below `a` reaches.
fn lowest_section(a: i64) -> (c: usize)
    requires
        0 <= a <= i32::MAX,
    ensures
        c == reach_lo(a as int),
{
    let lo = a - 15;
    if lo < 0 {
        0
    } else {
        (lo / 16) as usize
    }
}

/// One past the last section that 15 blocks above `a` reaches, of `n`.
fn section_after(a: i64, n: usize) -> (c: usize)
    requires
        0 <= a <= i32::MAX,
        0 < n,
        n * 16 <= i32::MAX,
    ensures
        c == reach_hi(a as int, n as int) + 1,
        c <= n,
{
    let hi = a + 15;
    let last = n as i64 * 16 - 1;
    if hi < last {
        (hi / 16) as usize + 1
    } else {
        (last / 16) as usize + 1
    }
}

/// The sections that an edit at `p` can change the light of: every section within 15
/// blocks of the block, or of the stretch of its column whose open floor moved from
/// `old_floor` to `new_floor`. Light travels at most 14 cells, so a cell outside this
/// box has no light from the edited cells, and what it holds is a right boundary.
pub fn affected_sections(world: &World, p: [usize; 3], old_floor: u32, new_floor: u32) -> (out: Vec<u32>)
    requires
        world.wf(),
        world.shape().has(Pos { x: p[0] as int, y: p[1] as int, z: p[2] as int }),
        old_floor <= world.ny * 16,
        new_floor <= world.ny * 16,
    ensures
        out@ == within_reach(
            world.shape(),
            Pos { x: p[0] as int, y: p[1] as int, z: p[2] as int },
            old_floor as int,
            new_floor as int,
        ),
        forall|k: int| 0 <= k < out@.len() ==> #[trigger] out@[k] < world.shape().sections(),
        ascends(out@),
{
    let ghost sh = world.shape();
    let (y, of, nf) = (p[1] as i64, old_floor as i64, new_floor as i64);
    let lo = if y <= of && y <= nf {
        y
    } else if of <= nf {
        of
    } else {
        nf
    };
    let top = if of < nf {
        nf
    } else {
        of
    };
    let hi = if y < top {
        top
    } else {
        y
    };
    let (x0, x1) = (lowest_section(p[0] as i64), section_after(p[0] as i64, world.nx));
    let (y0, y1) = (lowest_section(lo), section_after(hi, world.ny));
    let (z0, z1) = (lowest_section(p[2] as i64), section_after(p[2] as i64, world.nz));
    let ghost c = Pos { x: x0 as int, y: y0 as int, z: z0 as int };
    let ghost n = x1 - x0;
    let ghost m = z1 - z0;
    assert(x0 <= x1 && y0 <= y1 && z0 <= z1);
    let mut out: Vec<u32> = Vec::new();
    let mut cy = y0;
    while cy < y1
        invariant
            y0 <= cy <= y1 <= world.ny,
            x0 <= x1 <= world.nx,
            z0 <= z1 <= world.nz,
            world.wf(),
            sh == world.shape(),
            n == x1 - x0,
            m == z1 - z0,
            c == (Pos { x: x0 as int, y: y0 as int, z: z0 as int }),
            out@ == box_of_sections(sh, c, n, m, cy - y0),
            forall|k: int| 0 <= k < out@.len() ==> #[trigger] out@[k] < sh.sections(),
        decreases y1 - cy,
    {
        let ghost below = out@;
        let ghost cl = Pos { y: cy as int, ..c };
        let mut cz = z0;
        assert(out@ =~= below + layer_of_sections(sh, cl, n, 0));
        while cz < z1
            invariant
                y0 <= cy < y1 <= world.ny,
                x0 <= x1 <= world.nx,
                z0 <= cz <= z1 <= world.nz,
                world.wf(),
                sh == world.shape(),
                n == x1 - x0,
                cl == (Pos { x: x0 as int, y: cy as int, z: z0 as int }),
                out@ == below + layer_of_sections(sh, cl, n, cz - z0),
                forall|k: int| 0 <= k < out@.len() ==> #[trigger] out@[k] < sh.sections(),
            decreases z1 - cz,
        {
            let ghost before = out@;
            let ghost cr = Pos { z: cz as int, ..cl };
            let mut cx = x0;
            assert(out@ =~= before + row_of_sections(sh, cr, 0));
            while cx < x1
                invariant
                    cy < world.ny,
                    x0 <= cx <= x1 <= world.nx,
                    cz < world.nz,
                    world.wf(),
                    sh == world.shape(),
                    cr == (Pos { x: x0 as int, y: cy as int, z: cz as int }),
                    out@ == before + row_of_sections(sh, cr, cx - x0),
                    forall|k: int| 0 <= k < out@.len() ==> #[trigger] out@[k] < sh.sections(),
                decreases x1 - cx,
            {
                proof {
                    world.section_number_fits(cx, cy, cz);
                    sh.section_round_trip(Pos { x: cx as int, y: cy as int, z: cz as int });
                }
                out.push(world.section_index(cx, cy, cz) as u32);
                assert(out@ =~= before + row_of_sections(sh, cr, cx + 1 - x0));
                cx += 1;
            }
            assert(out@ =~= below + layer_of_sections(sh, cl, n, cz + 1 - z0));
            cz += 1;
        }
        assert(out@ =~= box_of_sections(sh, c, n, m, cy + 1 - y0));
        cy += 1;
    }
    proof {
        box_ascends(sh, c, n, m, y1 - y0);
    }
    out
}

} // verus!
