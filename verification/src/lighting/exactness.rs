//! Light kept through edits is the light computed from nothing.
use vstd::prelude::*;

use crate::lighting::light_cpu::{
    channel, is_floor, is_sky_floor, seeds_are_right, standard_facts, standard_losses,
};
use crate::lighting::light_model::{
    block_levels, emissions, is_light, light_is_unique, open_sky, opacities, sky_levels,
    sky_light_is_settled, sky_seed, sky_seeds, standard_emissions, standard_opacities,
};
use crate::lighting::relight::{
    borders, box_of_sections, frontier, layer_of_sections, least, listed, reach_hi, reach_lo, recomputed, reset_light,
    row_of_sections, seeded_fits, within_reach,
};
use crate::lighting::world::{Rules, World};
use crate::voxel::flood::{
    active, enough, far_cells_keep, flooded, incoming, is_drops, max, raised_by, settled,
    settled_is_enough_and_earned, spent,
};
use crate::voxel::nibble::halves;
use crate::voxel::shape::{opposite, Pos, Shape};

verus! {

/// The two ways to light a world from nothing agree: light that is right by the
/// standard rules is right by the rules the world's light floods by, and there is
/// only one such light.
pub proof fn lighting_agrees(world: &World, rules: &Rules, flooded_light: Seq<u8>, computed: Seq<u8>)
    requires
        world.wf(),
        rules.wf(),
        rules.is_standard(),
        is_light(world.shape(), standard_opacities(world), standard_emissions(world), flooded_light),
        is_light(world.shape(), opacities(world, rules), emissions(world, rules), computed),
    ensures
        flooded_light == computed,
{
    standard_facts(world);
    assert(opacities(world, rules) =~= standard_opacities(world));
    assert(emissions(world, rules) =~= standard_emissions(world));
    light_is_unique(world.shape(), standard_opacities(world), standard_emissions(world), flooded_light, computed);
}

/// Values reset near a change and flooded in again settle: `inside` holds all cells
/// within reach of the change.
proof fn reset_settles(
    sh: Shape,
    seed: Seq<int>,
    drop: Seq<int>,
    l: Seq<int>,
    seed2: Seq<int>,
    drop2: Seq<int>,
    far: spec_fn(int) -> int,
    inside: spec_fn(int) -> bool,
    start: Set<int>,
    base: Seq<int>,
    f: Seq<int>,
)
    requires
        sh.wf(),
        is_drops(sh, drop),
        is_drops(sh, drop2),
        settled(sh, seed, drop, l),
        forall|k: int| 0 <= k < sh.count() && #[trigger] far(k) >= 1 ==> seed[k] == seed2[k] && drop[k] == drop2[k],
        forall|k: int, d: int|
            0 <= k < sh.count() && 0 <= d < 6 ==> match #[trigger] sh.next(k, d) {
                Some(j) => far(j) >= far(k) - 1,
                None => true,
            },
        forall|k: int| 0 <= k < sh.count() && !inside(k) ==> #[trigger] far(k) >= 16,
        forall|k: int|
            0 <= k < sh.count() ==> #[trigger] base[k] == (if inside(k) {
                seed2[k]
            } else {
                l[k]
            }),
        forall|k: int| 0 <= k < sh.count() && inside(k) && #[trigger] seed2[k] > 0 ==> start.contains(k),
        forall|k: int, d: int|
            0 <= k < sh.count() && 0 <= d < 6 && !inside(k) ==> match #[trigger] sh.next(k, d) {
                Some(j) => inside(j) ==> start.contains(k),
                None => true,
            },
        flooded(sh, drop2, start, base, f),
    ensures
        settled(sh, seed2, drop2, f),
{
    settled_is_enough_and_earned(sh, seed, drop, l);
    settled_is_enough_and_earned(sh, seed2, drop2, f);
    assert forall|k: int| 0 <= k < sh.count() implies #[trigger] f[k] >= seed2[k] by {
        assert(f[k] >= base[k]);
        if !inside(k) {
            assert(far(k) >= 16);
            assert(l[k] >= seed[k]);
        }
    }
    assert forall|k: int, d: int| 0 <= k < sh.count() && 0 <= d < 6 implies f[k] >= #[trigger] incoming(
        sh,
        drop2,
        f,
        k,
        d,
    ) by {
        sh.next_and_back(k, d);
        assert(f[k] >= base[k]);
        if let Some(j) = sh.next(k, d) {
            if active(start, base, f, j) {
                assert(spent(sh, drop2, f, j));
                assert(sh.next(j, opposite(d)) == Some(k));
            } else {
                assert(f[j] == base[j]);
                if inside(j) {
                    assert(seed2[j] <= 0);
                } else {
                    assert(sh.next(j, opposite(d)) == Some(k));
                    assert(!inside(k));
                    assert(far(k) >= 16);
                    assert(l[k] >= incoming(sh, drop, l, k, d));
                }
            }
        }
    }
    assert(enough(sh, seed2, drop2, f));
    assert forall|k: int| 0 <= k < sh.count() implies #[trigger] f[k] <= seed2[k] || (exists|d: int|
        0 <= d < 6 && f[k] <= #[trigger] incoming(sh, drop2, f, k, d)) by {
        if f[k] != base[k] {
            assert(raised_by(sh, drop2, start, base, f, k));
            let d = choose|d: int|
                0 <= d < 6 && (match #[trigger] sh.next(k, d) {
                    Some(j) => active(start, base, f, j) && f[k] <= f[j] - drop2[k],
                    None => false,
                });
            assert(f[k] <= incoming(sh, drop2, f, k, d));
        } else if !inside(k) {
            assert(far(k) >= 16);
            assert(f[k] == l[k]);
            if l[k] > seed[k] {
                let d = choose|d: int| 0 <= d < 6 && l[k] <= #[trigger] incoming(sh, drop, l, k, d);
                sh.next_and_back(k, d);
                if l[k] > 0 {
                    let j = sh.next(k, d)->0;
                    assert(far(j) >= far(k) - 1);
                    assert(l[j] > l[k]);
                    far_cells_keep(sh, seed, drop, l, seed2, drop2, f, far, j);
                }
                assert(f[k] <= incoming(sh, drop2, f, k, d));
            }
        }
    }
}

/// How far `a` is from the stretch from `lo` to `hi`.
pub open spec fn gap(a: int, lo: int, hi: int) -> int {
    if a < lo {
        lo - a
    } else if a > hi {
        a - hi
    } else {
        0
    }
}

/// How far a cell is from the stretch of a column, along the axis that is farthest.
pub open spec fn steps_away(p: Pos, lo: int, hi: int, q: Pos) -> int {
    max(max(gap(q.x, p.x, p.x), gap(q.z, p.z, p.z)), gap(q.y, lo, hi))
}

/// A step changes that by one at most.
pub proof fn one_step_away(p: Pos, lo: int, hi: int, q: Pos, d: int)
    requires
        0 <= d < 6,
        lo <= hi,
    ensures
        steps_away(p, lo, hi, q.step(d)) >= steps_away(p, lo, hi, q) - 1,
{
}

/// A row holds each of its sections.
proof fn layer_holds(sh: Shape, c: Pos, n: int, m: int, q: Pos)
    requires
        c.x <= q.x < c.x + n,
        c.z <= q.z < c.z + m,
        q.y == c.y,
    ensures
        layer_of_sections(sh, c, n, m).contains(sh.section(q) as u32),
    decreases m,
{
    let before = layer_of_sections(sh, c, n, m - 1);
    let row = row_of_sections(sh, Pos { z: c.z + m - 1, ..c }, n);
    let all = layer_of_sections(sh, c, n, m);
    if q.z == c.z + m - 1 {
        let k = q.x - c.x;
        assert(Pos { x: c.x + k, ..(Pos { z: c.z + m - 1, ..c }) } == q);
        assert(row[k] == sh.section(q) as u32);
        assert(all[before.len() + k] == row[k]);
    } else {
        layer_holds(sh, c, n, m - 1, q);
        let i = before.index_of(sh.section(q) as u32);
        assert(all[i] == before[i]);
    }
}

/// A box holds each of its sections.
pub proof fn box_holds(sh: Shape, c: Pos, n: int, m: int, h: int, q: Pos)
    requires
        c.x <= q.x < c.x + n,
        c.z <= q.z < c.z + m,
        c.y <= q.y < c.y + h,
    ensures
        box_of_sections(sh, c, n, m, h).contains(sh.section(q) as u32),
    decreases h,
{
    let before = box_of_sections(sh, c, n, m, h - 1);
    let layer = layer_of_sections(sh, Pos { y: c.y + h - 1, ..c }, n, m);
    let all = box_of_sections(sh, c, n, m, h);
    if q.y == c.y + h - 1 {
        layer_holds(sh, Pos { y: c.y + h - 1, ..c }, n, m, q);
        let i = layer.index_of(sh.section(q) as u32);
        assert(all[before.len() + i] == layer[i]);
    } else {
        box_holds(sh, c, n, m, h - 1, q);
        let i = before.index_of(sh.section(q) as u32);
        assert(all[i] == before[i]);
    }
}

/// Every cell within 15 steps of an edit is in a section within its reach.
pub proof fn near_cells_are_within_reach(sh: Shape, p: Pos, old_floor: int, new_floor: int, q: Pos)
    requires
        sh.wf(),
        sh.has(p),
        sh.has(q),
        0 <= old_floor,
        0 <= new_floor,
        steps_away(p, least(p.y, old_floor, new_floor), max(p.y, max(old_floor, new_floor)), q) <= 15,
    ensures
        within_reach(sh, p, old_floor, new_floor).contains(sh.section_of(q) as u32),
{
    let lo = least(p.y, old_floor, new_floor);
    let hi = max(p.y, max(old_floor, new_floor));
    let x = reach_lo(p.x);
    let y = reach_lo(lo);
    let z = reach_lo(p.z);
    assert(p.x - 15 <= q.x <= p.x + 15);
    assert(p.z - 15 <= q.z <= p.z + 15);
    assert(lo - 15 <= q.y <= hi + 15);
    assert(x <= q.x / 16 <= reach_hi(p.x, sh.nx));
    assert(z <= q.z / 16 <= reach_hi(p.z, sh.nz));
    assert(y <= q.y / 16 <= reach_hi(hi, sh.ny));
    box_holds(
        sh,
        Pos { x, y, z },
        reach_hi(p.x, sh.nx) - x + 1,
        reach_hi(p.z, sh.nz) - z + 1,
        reach_hi(hi, sh.ny) - y + 1,
        sh.section_pos_of(q),
    );
}

/// Below the open floor of a column nothing is open to the sky.
proof fn below_floor_is_not_open(sh: Shape, opac: Seq<int>, p: Pos, floor: int)
    requires
        is_floor(sh, opac, p.x, p.z, floor),
        p.y < floor,
        0 <= p.y,
    ensures
        !open_sky(sh, opac, p),
{
    let y = floor - 1;
    assert(opac[sh.place(Pos { y, ..p })] != 0) by {
        assert(Pos { y, ..p } == (Pos { x: p.x, y: floor - 1, z: p.z }));
    }
}

/// A cell away from the changed stretch has the seeds and the opacity it had.
proof fn far_seeds_keep(
    before: &World,
    after: &World,
    p: Pos,
    old_floor: int,
    new_floor: int,
    i: int,
)
    requires
        edited(before, after, p),
        is_floor(after.shape(), standard_opacities(before), p.x, p.z, old_floor),
        is_floor(after.shape(), standard_opacities(after), p.x, p.z, new_floor),
        0 <= i < after.shape().count(),
        steps_away(
            p,
            least(p.y, old_floor, new_floor),
            max(p.y, max(old_floor, new_floor)),
            after.shape().cell(i),
        ) >= 1,
    ensures
        standard_opacities(after)[i] == standard_opacities(before)[i],
        standard_emissions(after)[i] == standard_emissions(before)[i],
        sky_seed(after.shape(), standard_opacities(after), i) == sky_seed(
            after.shape(),
            standard_opacities(before),
            i,
        ),
{
    let sh = after.shape();
    let q = sh.cell(i);
    let (o, n) = (standard_opacities(before), standard_opacities(after));
    sh.cell_round_trip(i);
    sh.place_round_trip(p);
    assert(i != sh.place(p));
    assert(open_sky(sh, n, q) == open_sky(sh, o, q)) by {
        let lo = least(p.y, old_floor, new_floor);
        if q.x == p.x && q.z == p.z && q.y < lo {
            below_floor_is_not_open(sh, o, q, old_floor);
            below_floor_is_not_open(sh, n, q, new_floor);
        } else {
            assert forall|y: int| q.y <= y < sh.ny * 16 implies n[#[trigger] sh.place(Pos { y, ..q })] == o[sh.place(
                Pos { y, ..q },
            )] by {
                let r = Pos { y, ..q };
                sh.place_round_trip(r);
                if sh.place(r) == sh.place(p) {
                    sh.places_differ(r, p);
                }
            }
            if open_sky(sh, o, q) {
                assert forall|y: int| q.y <= y < sh.ny * 16 implies n[#[trigger] sh.place(Pos { y, ..q })] == 0 by {
                    assert(o[sh.place(Pos { y, ..q })] == 0);
                }
            }
            if open_sky(sh, n, q) {
                assert forall|y: int| q.y <= y < sh.ny * 16 implies o[#[trigger] sh.place(Pos { y, ..q })] == 0 by {
                    assert(n[sh.place(Pos { y, ..q })] == 0);
                }
            }
        }
    }
}

/// `after` is `before` with at most the block at `p` changed.
pub open spec fn edited(before: &World, after: &World, p: Pos) -> bool {
    &&& before.wf()
    &&& after.wf()
    &&& before.shape() == after.shape()
    &&& after.shape().has(p)
    &&& after.blocks@ == before.blocks@.update(after.shape().place(p), after.at(p))
}

/// Recomputing is exact: where the light was right before an edit, and the listed
/// sections hold those within reach of it, the light that recomputing leaves is right
/// after it.
pub proof fn recomputing_is_exact(
    before: &World,
    after: &World,
    p: Pos,
    old_floor: int,
    new_floor: int,
    floor: Seq<u32>,
    light: Seq<u8>,
    sections: Seq<u32>,
    out: Seq<u8>,
)
    requires
        edited(before, after, p),
        is_light(before.shape(), standard_opacities(before), standard_emissions(before), light),
        is_floor(after.shape(), standard_opacities(before), p.x, p.z, old_floor),
        is_floor(after.shape(), standard_opacities(after), p.x, p.z, new_floor),
        is_sky_floor(after.shape(), standard_opacities(after), floor),
        forall|s: u32| #[trigger]
            within_reach(after.shape(), p, old_floor, new_floor).contains(s) ==> sections.contains(s),
        recomputed(after, floor, light, sections, out),
    ensures
        is_light(after.shape(), standard_opacities(after), standard_emissions(after), out),
{
    let sh = after.shape();
    let lo = least(p.y, old_floor, new_floor);
    let hi = max(p.y, max(old_floor, new_floor));
    let far = |k: int| steps_away(p, lo, hi, sh.cell(k));
    let inside = |k: int| listed(sections, k);
    let (o, n) = (standard_opacities(before), standard_opacities(after));
    let start = frontier(after, floor, sections);
    standard_facts(before);
    standard_facts(after);
    sky_light_is_settled(sh, o, sky_levels(light));
    sky_light_is_settled(sh, n, sky_levels(out));
    assert forall|k: int| 0 <= k < sh.count() && #[trigger] far(k) >= 1 implies standard_emissions(before)[k]
        == standard_emissions(after)[k] && sky_seeds(sh, o)[k] == sky_seeds(sh, n)[k] && standard_losses(before)[k]
        == standard_losses(after)[k] by {
        far_seeds_keep(before, after, p, old_floor, new_floor, k);
    }
    assert forall|k: int, d: int| 0 <= k < sh.count() && 0 <= d < 6 implies match #[trigger] sh.next(k, d) {
        Some(j) => far(j) >= far(k) - 1,
        None => true,
    } by {
        sh.next_and_back(k, d);
        one_step_away(p, lo, hi, sh.cell(k), d);
    }
    assert forall|k: int| 0 <= k < sh.count() && !inside(k) implies #[trigger] far(k) >= 16 by {
        sh.cell_round_trip(k);
        if far(k) < 16 {
            near_cells_are_within_reach(sh, p, old_floor, new_floor, sh.cell(k));
            sh.section_of_block(sh.cell(k));
            let s = sh.section_of(sh.cell(k)) as u32;
            assert(sections.contains(s));
            let m = sections.index_of(s);
            assert(sections[m] == k / 4096);
        }
    }
    let reset = reset_light(after, floor, light, sections);
    assert forall|k: int| 0 <= k < sh.count() && inside(k) implies channel(reset, false)[k] == #[trigger] standard_emissions(
        after,
    )[k] && channel(reset, true)[k] == sky_seeds(sh, n)[k] by {
        seeds_are_right(after, floor, k);
        seeded_fits(after, floor, sh.cell(k));
    }
    assert forall|k: int| 0 <= k < sh.count() && inside(k) && (standard_emissions(after)[k] > 0 || sky_seeds(sh, n)[k]
        > 0) implies #[trigger] start.contains(k) by {
        seeds_are_right(after, floor, k);
        seeded_fits(after, floor, sh.cell(k));
    }
    assert forall|k: int, d: int| 0 <= k < sh.count() && 0 <= d < 6 && !inside(k) implies match #[trigger] sh.next(k, d) {
        Some(j) => inside(j) ==> start.contains(k),
        None => true,
    } by {
        if let Some(j) = sh.next(k, d) {
            if inside(j) {
                assert(borders(sh, sections, k));
            }
        }
    }
    reset_settles(
        sh,
        standard_emissions(before),
        standard_losses(before),
        block_levels(light),
        standard_emissions(after),
        standard_losses(after),
        far,
        inside,
        start,
        channel(reset, false),
        channel(out, false),
    );
    assert forall|k: int| 0 <= k < sh.count() implies #[trigger] channel(reset, true)[k] == (if inside(k) {
        sky_seeds(sh, n)[k]
    } else {
        sky_levels(light)[k]
    }) by {
        if inside(k) {
            assert(channel(reset, false)[k] == standard_emissions(after)[k]);
        }
    }
    reset_settles(
        sh,
        sky_seeds(sh, o),
        standard_losses(before),
        sky_levels(light),
        sky_seeds(sh, n),
        standard_losses(after),
        far,
        inside,
        start,
        channel(reset, true),
        channel(out, true),
    );
}

/// An edit is not felt out of its reach: a section that is not within reach of the edit has,
/// in the light that is right after it, what it had in the light that was right before it.
pub proof fn light_out_of_reach_keeps(
    before: &World,
    after: &World,
    p: Pos,
    old_floor: int,
    new_floor: int,
    light: Seq<u8>,
    out: Seq<u8>,
)
    requires
        edited(before, after, p),
        is_light(before.shape(), standard_opacities(before), standard_emissions(before), light),
        is_light(after.shape(), standard_opacities(after), standard_emissions(after), out),
        is_floor(after.shape(), standard_opacities(before), p.x, p.z, old_floor),
        is_floor(after.shape(), standard_opacities(after), p.x, p.z, new_floor),
    ensures
        forall|k: int|
            0 <= k < out.len() && !listed(within_reach(after.shape(), p, old_floor, new_floor), k)
                ==> #[trigger] out[k] == light[k],
{
    let sh = after.shape();
    let lo = least(p.y, old_floor, new_floor);
    let hi = max(p.y, max(old_floor, new_floor));
    let far = |k: int| steps_away(p, lo, hi, sh.cell(k));
    let (o, n) = (standard_opacities(before), standard_opacities(after));
    let (drop, drop2) = (standard_losses(before), standard_losses(after));
    let (emit, emit2) = (standard_emissions(before), standard_emissions(after));
    let (sky, sky2) = (sky_seeds(sh, o), sky_seeds(sh, n));
    standard_facts(before);
    standard_facts(after);
    sky_light_is_settled(sh, o, sky_levels(light));
    sky_light_is_settled(sh, n, sky_levels(out));
    settled_is_enough_and_earned(sh, emit, drop, block_levels(light));
    settled_is_enough_and_earned(sh, emit2, drop2, block_levels(out));
    settled_is_enough_and_earned(sh, sky, drop, sky_levels(light));
    settled_is_enough_and_earned(sh, sky2, drop2, sky_levels(out));
    assert forall|k: int| 0 <= k < sh.count() && #[trigger] far(k) >= 1 implies emit[k] == emit2[k] && sky[k] == sky2[k]
        && drop[k] == drop2[k] by {
        far_seeds_keep(before, after, p, old_floor, new_floor, k);
    }
    assert forall|k: int, d: int| 0 <= k < sh.count() && 0 <= d < 6 implies match #[trigger] sh.next(k, d) {
        Some(j) => far(j) >= far(k) - 1,
        None => true,
    } by {
        sh.next_and_back(k, d);
        one_step_away(p, lo, hi, sh.cell(k), d);
    }
    let sections = within_reach(sh, p, old_floor, new_floor);
    assert forall|k: int| 0 <= k < out.len() && !listed(sections, k) implies #[trigger] out[k] == light[k] by {
        sh.cell_round_trip(k);
        if far(k) < 16 {
            near_cells_are_within_reach(sh, p, old_floor, new_floor, sh.cell(k));
            sh.section_of_block(sh.cell(k));
            let m = sections.index_of(sh.section_of(sh.cell(k)) as u32);
            assert(sections[m] == k / 4096);
        }
        far_cells_keep(sh, emit, drop, block_levels(light), emit2, drop2, block_levels(out), far, k);
        far_cells_keep(sh, emit2, drop2, block_levels(out), emit, drop, block_levels(light), far, k);
        far_cells_keep(sh, sky, drop, sky_levels(light), sky2, drop2, sky_levels(out), far, k);
        far_cells_keep(sh, sky2, drop2, sky_levels(out), sky, drop, sky_levels(light), far, k);
        halves(light[k]);
        halves(out[k]);
    }
}

} // verus!
