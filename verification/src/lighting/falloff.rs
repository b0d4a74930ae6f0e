//! What light does in a world, block by block: what it loses on its way, where it comes from, and
//! what it comes through.
use vstd::prelude::*;

use crate::lighting::cpu_light::{
    beside_u, beside_v, corner_rule, diagonal, differences, occluders, occluding, Light,
};
use crate::lighting::face::{DIR_U, DIR_V};
use crate::lighting::light_model::{
    emissions, is_block_light, is_opacities, is_sky_light, losses, opacities, open_sky, open_sky_step, sky_light_is_settled,
    sky_seeds,
};
use crate::lighting::world::{standard_light, Rules, World};
use crate::voxel::flood::{best_incoming, incoming, is_drops};
use crate::voxel::nibble::{high, low};
use crate::voxel::shape::{Pos, Shape};

verus! {

/// Two blocks share a face.
pub open spec fn touch(p: Pos, q: Pos) -> bool {
    ||| q.y == p.y && q.z == p.z && (q.x == p.x + 1 || q.x == p.x - 1)
    ||| q.x == p.x && q.z == p.z && (q.y == p.y + 1 || q.y == p.y - 1)
    ||| q.x == p.x && q.y == p.y && (q.z == p.z + 1 || q.z == p.z - 1)
}

/// The six directions, by the axis and the sign of each: every block that shares a face is one
/// step away, and nothing else is.
pub proof fn six_directions(p: Pos, q: Pos)
    ensures
        p.step(0) == (Pos { x: p.x - 1, y: p.y, z: p.z }),
        p.step(1) == (Pos { x: p.x + 1, y: p.y, z: p.z }),
        p.step(2) == (Pos { x: p.x, y: p.y - 1, z: p.z }),
        p.step(3) == (Pos { x: p.x, y: p.y + 1, z: p.z }),
        p.step(4) == (Pos { x: p.x, y: p.y, z: p.z - 1 }),
        p.step(5) == (Pos { x: p.x, y: p.y, z: p.z + 1 }),
        touch(p, q) <==> exists|d: int| 0 <= d < 6 && q == #[trigger] p.step(d),
{
    if touch(p, q) {
        if q.x == p.x - 1 {
            assert(q == p.step(0));
        } else if q.x == p.x + 1 {
            assert(q == p.step(1));
        } else if q.y == p.y - 1 {
            assert(q == p.step(2));
        } else if q.y == p.y + 1 {
            assert(q == p.step(3));
        } else if q.z == p.z - 1 {
            assert(q == p.step(4));
        } else {
            assert(q == p.step(5));
        }
    }
    if exists|d: int| 0 <= d < 6 && q == #[trigger] p.step(d) {
        let d = choose|d: int| 0 <= d < 6 && q == #[trigger] p.step(d);
        assert(d == 0 || d == 1 || d == 2 || d == 3 || d == 4 || d == 5);
    }
}

/// What one step loses: what the block takes that is entered, and at least 1.
pub open spec fn lost(opac: int) -> int {
    if opac < 1 {
        1
    } else {
        opac
    }
}

/// What a neighbour gives is what it has less what entering loses.
proof fn what_comes_from(sh: Shape, opac: Seq<int>, f: Seq<int>, p: Pos, d: int)
    requires
        sh.wf(),
        is_opacities(sh, opac),
        sh.has(p),
        0 <= d < 6,
    ensures
        0 <= sh.place(p) < sh.count(),
        sh.has(p.step(d)) ==> incoming(sh, losses(opac), f, sh.place(p), d) == (if f[sh.place(p.step(d))] < lost(
            opac[sh.place(p)],
        ) {
            0
        } else {
            f[sh.place(p.step(d))] - lost(opac[sh.place(p)])
        }),
        !sh.has(p.step(d)) ==> incoming(sh, losses(opac), f, sh.place(p), d) == 0,
        best_incoming(sh, losses(opac), f, sh.place(p)) >= incoming(sh, losses(opac), f, sh.place(p), d),
{
    sh.place_round_trip(p);
    assert(d == 0 || d == 1 || d == 2 || d == 3 || d == 4 || d == 5);
}

/// Block light falls off with every step: a block has at least what it emits, and at least what
/// any block beside it has less what it takes, or less 1 if it takes nothing.
pub proof fn block_light_falls_off(sh: Shape, opac: Seq<int>, emit: Seq<int>, f: Seq<int>, p: Pos, q: Pos)
    requires
        sh.wf(),
        is_opacities(sh, opac),
        is_block_light(sh, opac, emit, f),
        sh.has(p),
        sh.has(q),
        touch(p, q),
    ensures
        f[sh.place(p)] >= emit[sh.place(p)],
        f[sh.place(p)] >= f[sh.place(q)] - lost(opac[sh.place(p)]),
        0 <= f[sh.place(p)] <= 15,
{
    six_directions(p, q);
    let d = choose|d: int| 0 <= d < 6 && q == #[trigger] p.step(d);
    what_comes_from(sh, opac, f, p, d);
}

/// Block light has a source: a block that is lit emits that much itself, or has it from a block
/// beside it that has just so much more as entering this one loses.
pub proof fn block_light_has_a_source(sh: Shape, opac: Seq<int>, emit: Seq<int>, f: Seq<int>, p: Pos)
    requires
        sh.wf(),
        is_opacities(sh, opac),
        is_block_light(sh, opac, emit, f),
        sh.has(p),
        f[sh.place(p)] > 0,
    ensures
        f[sh.place(p)] == emit[sh.place(p)] || exists|q: Pos| #[trigger]
            touch(p, q) && sh.has(q) && f[sh.place(q)] == f[sh.place(p)] + lost(opac[sh.place(p)]),
{
    six_directions(p, p);
    what_comes_from(sh, opac, f, p, 0);
    what_comes_from(sh, opac, f, p, 1);
    what_comes_from(sh, opac, f, p, 2);
    what_comes_from(sh, opac, f, p, 3);
    what_comes_from(sh, opac, f, p, 4);
    what_comes_from(sh, opac, f, p, 5);
    assert(touch(p, p.step(0)) && touch(p, p.step(1)) && touch(p, p.step(2)));
    assert(touch(p, p.step(3)) && touch(p, p.step(4)) && touch(p, p.step(5)));
}

/// Sky light falls off sideways and downwards like block light, and where it does not come from
/// the open sky it comes from a block beside: all of it is left exactly where the block and every
/// one above it take nothing, and what enters the top of the world at a block that takes some has
/// lost as much of 15.
pub proof fn sky_light_falls_off(sh: Shape, opac: Seq<int>, f: Seq<int>, p: Pos, q: Pos)
    requires
        sh.wf(),
        is_opacities(sh, opac),
        is_sky_light(sh, opac, f),
        sh.has(p),
    ensures
        f[sh.place(p)] == 15 <==> forall|y: int|
            p.y <= y < sh.ny * 16 ==> opac[#[trigger] sh.place(Pos { x: p.x, y, z: p.z })] == 0,
        touch(p, q) && sh.has(q) ==> f[sh.place(p)] >= f[sh.place(q)] - lost(opac[sh.place(p)]),
        p.y == sh.ny * 16 - 1 ==> f[sh.place(p)] >= 15 - lost(opac[sh.place(p)]),
        0 < f[sh.place(p)] < 15 ==> (p.y == sh.ny * 16 - 1 && f[sh.place(p)] == 15 - lost(opac[sh.place(p)])) || exists|r: Pos|
            #[trigger]
            touch(p, r) && sh.has(r) && f[sh.place(r)] == f[sh.place(p)] + lost(opac[sh.place(p)]),
{
    sky_light_is_settled(sh, opac, f);
    let i = sh.place(p);
    let seeds = sky_seeds(sh, opac);
    sh.place_round_trip(p);
    assert(is_drops(sh, losses(opac)));
    six_directions(p, q);
    what_comes_from(sh, opac, f, p, 0);
    what_comes_from(sh, opac, f, p, 1);
    what_comes_from(sh, opac, f, p, 2);
    what_comes_from(sh, opac, f, p, 3);
    what_comes_from(sh, opac, f, p, 4);
    what_comes_from(sh, opac, f, p, 5);
    assert(touch(p, p.step(0)) && touch(p, p.step(1)) && touch(p, p.step(2)));
    assert(touch(p, p.step(3)) && touch(p, p.step(4)) && touch(p, p.step(5)));
    if touch(p, q) {
        let d = choose|d: int| 0 <= d < 6 && q == #[trigger] p.step(d);
        what_comes_from(sh, opac, f, p, d);
    }
    let open = forall|y: int| p.y <= y < sh.ny * 16 ==> opac[#[trigger] sh.place(Pos { x: p.x, y, z: p.z })] == 0;
    if open {
        assert forall|y: int| p.y <= y < sh.ny * 16 implies opac[#[trigger] sh.place(Pos { y, ..p })] == 0 by {
            assert((Pos { y, ..p }) == (Pos { x: p.x, y, z: p.z }));
        }
    }
    if open_sky(sh, opac, p) {
        assert forall|y: int| p.y <= y < sh.ny * 16 implies opac[#[trigger] sh.place(Pos { x: p.x, y, z: p.z })] == 0 by {
            assert((Pos { y, ..p }) == (Pos { x: p.x, y, z: p.z }));
        }
    }
    open_sky_step(sh, opac, p);
    assert(f[i] == if seeds[i] < best_incoming(sh, losses(opac), f, i) {
        best_incoming(sh, losses(opac), f, i)
    } else {
        seeds[i]
    });
    assert forall|d: int| 0 <= d < 6 && sh.has(#[trigger] p.step(d)) implies f[sh.place(p.step(d))] <= 15 by {
        sh.place_round_trip(p.step(d));
    }
    assert(sh.has(p.step(0)) ==> f[sh.place(p.step(0))] <= 15);
    assert(sh.has(p.step(1)) ==> f[sh.place(p.step(1))] <= 15);
    assert(sh.has(p.step(2)) ==> f[sh.place(p.step(2))] <= 15);
    assert(sh.has(p.step(3)) ==> f[sh.place(p.step(3))] <= 15);
    assert(sh.has(p.step(4)) ==> f[sh.place(p.step(4))] <= 15);
    assert(sh.has(p.step(5)) ==> f[sh.place(p.step(5))] <= 15);
}

/// By the standard rules the sky's light comes straight down through air, glass and torches
/// undiminished: a block has all 15 of it exactly where it and every block above it are such.
pub proof fn sky_comes_through_air_and_glass(world: &World, rules: &Rules, f: Seq<int>, p: Pos)
    requires
        world.wf(),
        rules.is_standard(),
        is_sky_light(world.shape(), opacities(world, rules), f),
        world.shape().has(p),
    ensures
        f[world.shape().place(p)] == 15 <==> forall|y: int|
            p.y <= y < world.ny * 16 ==> {
                let b = #[trigger] world.at(Pos { x: p.x, y, z: p.z });
                b == 0 || b == 6 || b == 9
            },
{
    let sh = world.shape();
    let opac = opacities(world, rules);
    standard_light(rules);
    assert(is_opacities(sh, opac));
    sky_light_falls_off(sh, opac, f, p, p);
    assert forall|y: int| p.y <= y < sh.ny * 16 implies {
        let b = #[trigger] world.at(Pos { x: p.x, y, z: p.z });
        opac[sh.place(Pos { x: p.x, y, z: p.z })] == 0 <==> b == 0 || b == 6 || b == 9
    } by {
        let q = Pos { x: p.x, y, z: p.z };
        assert(sh.has(q));
        sh.place_round_trip(q);
        assert(opac[sh.place(q)] == rules.takes(world.at(q)));
    }
    if f[sh.place(p)] == 15 {
        assert forall|y: int| p.y <= y < world.ny * 16 implies {
            let b = #[trigger] world.at(Pos { x: p.x, y, z: p.z });
            b == 0 || b == 6 || b == 9
        } by {
            assert(opac[sh.place(Pos { x: p.x, y, z: p.z })] == 0);
        }
    }
    if forall|y: int|
        p.y <= y < world.ny * 16 ==> {
            let b = #[trigger] world.at(Pos { x: p.x, y, z: p.z });
            b == 0 || b == 6 || b == 9
        } {
        assert forall|y: int| p.y <= y < sh.ny * 16 implies opac[#[trigger] sh.place(Pos { x: p.x, y, z: p.z })] == 0 by {
            let b = world.at(Pos { x: p.x, y, z: p.z });
            assert(b == 0 || b == 6 || b == 9);
        }
    }
}

/// By the standard rules a torch lights its own block with 14, and glowstone, lava and a sea
/// lantern with 15, and the light of a block that takes nothing is at most 1 less than that of
/// any block beside it.
pub proof fn lamps_light(world: &World, rules: &Rules, f: Seq<int>, p: Pos, q: Pos)
    requires
        world.wf(),
        rules.is_standard(),
        is_block_light(world.shape(), opacities(world, rules), emissions(world, rules), f),
        world.shape().has(p),
        world.shape().has(q),
        touch(p, q),
    ensures
        world.at(p) == 9 ==> f[world.shape().place(p)] >= 14,
        10 <= world.at(p) <= 12 ==> f[world.shape().place(p)] == 15,
        world.at(p) <= 0 || 6 <= world.at(p) <= 9 ==> f[world.shape().place(p)] >= f[world.shape().place(q)] - 1,
{
    let sh = world.shape();
    let opac = opacities(world, rules);
    standard_light(rules);
    assert(is_opacities(sh, opac));
    block_light_falls_off(sh, opac, emissions(world, rules), f, p, q);
    sh.place_round_trip(p);
    assert(opac[sh.place(p)] == rules.takes(world.at(p)));
    assert(emissions(world, rules)[sh.place(p)] == rules.emits(world.at(p)));
}

/// Outside the world there is no block light, and all of the sky's above it and none beside or
/// below it.
pub proof fn light_outside(light: &Light, world: &World, p: Pos)
    requires
        !world.shape().has(p),
    ensures
        low(light.at(world, p)) == 0,
        0 <= p.x < world.nx * 16 && 0 <= p.z < world.nz * 16 && p.y >= world.ny * 16 && world.ny > 0 ==> high(
            light.at(world, p),
        ) == 15,
        p.x < 0 || p.x >= world.nx * 16 || p.z < 0 || p.z >= world.nz * 16 || p.y < 0 ==> high(light.at(world, p)) == 0,
{
}

/// A cell comes before another in order of y, then z, then x.
pub open spec fn earlier(p: (int, int, int), q: (int, int, int)) -> bool {
    ||| p.1 < q.1
    ||| p.1 == q.1 && p.2 < q.2
    ||| p.1 == q.1 && p.2 == q.2 && p.0 < q.0
}

/// A difference is told of every cell before `(y, z, x)` whose two bytes differ, with both, and of
/// no other.
pub proof fn every_difference_is_told(
    sh: Shape,
    a: Seq<u8>,
    b: Seq<u8>,
    y: int,
    z: int,
    x: int,
    e: (i32, i32, i32, u8, u8),
)
    requires
        sh.wf(),
        0 <= sh.nx * 16 <= i32::MAX,
        0 <= sh.ny * 16 <= i32::MAX,
        0 <= sh.nz * 16 <= i32::MAX,
        0 <= x <= sh.nx * 16,
        0 <= z <= sh.nz * 16,
        0 <= y <= sh.ny * 16,
        x > 0 ==> z < sh.nz * 16,
        x > 0 || z > 0 ==> y < sh.ny * 16,
    ensures
        differences(sh, a, b, y, z, x).contains(e) <==> {
            let p = Pos { x: e.0 as int, y: e.1 as int, z: e.2 as int };
            &&& sh.has(p)
            &&& earlier((e.0 as int, e.1 as int, e.2 as int), (x, y, z))
            &&& a[sh.place(p)] == e.3
            &&& b[sh.place(p)] == e.4
            &&& e.3 != e.4
        },
    decreases y, z, x,
{
    let all = differences(sh, a, b, y, z, x);
    if x > 0 {
        every_difference_is_told(sh, a, b, y, z, x - 1, e);
        let before = differences(sh, a, b, y, z, x - 1);
        let i = sh.place(Pos { x: x - 1, y, z });
        if a[i] != b[i] {
            let new = ((x - 1) as i32, y as i32, z as i32, a[i], b[i]);
            if before.contains(e) {
                assert(all[before.index_of(e)] == e);
            }
            if all.contains(e) && e != new {
                assert(before[all.index_of(e)] == e);
            }
            assert(all[before.len() as int] == new);
        }
    } else if z > 0 {
        every_difference_is_told(sh, a, b, y, z - 1, sh.nx * 16, e);
    } else if y > 0 {
        every_difference_is_told(sh, a, b, y - 1, sh.nz * 16, 0, e);
    } else {
        assert(all.len() == 0);
    }
}

/// Two lights that differ nowhere have no difference told, and only such.
pub proof fn the_same_light_has_no_difference(sh: Shape, a: Seq<u8>, b: Seq<u8>)
    requires
        sh.wf(),
        0 <= sh.nx * 16 <= i32::MAX,
        0 <= sh.ny * 16 <= i32::MAX,
        0 <= sh.nz * 16 <= i32::MAX,
        a.len() == sh.count(),
        b.len() == sh.count(),
    ensures
        differences(sh, a, b, sh.ny * 16, 0, 0).len() == 0 <==> a == b,
{
    let all = differences(sh, a, b, sh.ny * 16, 0, 0);
    if all.len() > 0 {
        let e = all[0];
        assert(all.contains(e));
        every_difference_is_told(sh, a, b, sh.ny * 16, 0, 0, e);
    } else {
        assert forall|i: int| 0 <= i < a.len() implies a[i] == b[i] by {
            sh.cell_round_trip(i);
            let p = sh.cell(i);
            every_difference_is_told(sh, a, b, sh.ny * 16, 0, 0, (p.x as i32, p.y as i32, p.z as i32, a[i], b[i]));
        }
        assert(a =~= b);
    }
}

/// The two axes along a face, by its direction: they are the two axes across it, and each pair of
/// opposite faces has them the other way round.
pub proof fn axes_of_faces(d: int)
    requires
        0 <= d < 6,
    ensures
        d == 0 ==> DIR_U[d] == 2 && DIR_V[d] == 1,
        d == 1 ==> DIR_U[d] == 1 && DIR_V[d] == 2,
        d == 2 ==> DIR_U[d] == 0 && DIR_V[d] == 2,
        d == 3 ==> DIR_U[d] == 2 && DIR_V[d] == 0,
        d == 4 ==> DIR_U[d] == 1 && DIR_V[d] == 0,
        d == 5 ==> DIR_U[d] == 0 && DIR_V[d] == 1,
{
}

/// The blocks that shade a corner of a face lie in the layer that the face looks into: one beside
/// the block in front along each axis of the face, and one beside both of these.
pub proof fn shading_blocks_are_in_front(c: Pos, d: int, cu: bool, cv: bool)
    requires
        0 <= d < 6,
    ensures
        ({
            let (o, u, v, k) = (c.step(d), beside_u(c, d, cu), beside_v(c, d, cv), diagonal(c, d, cu, cv));
            &&& touch(o, u) && touch(o, v) && touch(u, k) && touch(v, k)
            &&& u != v && k != o
            &&& d < 2 ==> u.x == o.x && v.x == o.x && k.x == o.x
            &&& 2 <= d < 4 ==> u.y == o.y && v.y == o.y && k.y == o.y
            &&& d >= 4 ==> u.z == o.z && v.z == o.z && k.z == o.z
        }),
        beside_u(c, d, true) != beside_u(c, d, false),
        beside_v(c, d, true) != beside_v(c, d, false),
        d == 3 ==> beside_u(c, d, cu) == (Pos { x: c.x, y: c.y + 1, z: c.z + (if cu { 1int } else { -1 }) }),
        d == 3 ==> beside_v(c, d, cv) == (Pos { x: c.x + (if cv { 1int } else { -1 }), y: c.y + 1, z: c.z }),
{
    axes_of_faces(d);
    assert(d == 0 || d == 1 || d == 2 || d == 3 || d == 4 || d == 5);
}

/// A corner between two full blocks has three occluders, for the block across it cannot be seen;
/// any other has as many as there are full blocks among the three.
pub proof fn corners_are_shaded_by_full_blocks(world: &World, rules: &Rules, c: Pos, d: int, cu: bool, cv: bool)
    ensures
        ({
            let u = occluding(world, rules, beside_u(c, d, cu));
            let v = occluding(world, rules, beside_v(c, d, cv));
            let k = occluding(world, rules, diagonal(c, d, cu, cv));
            let n = occluders(world, rules, c, d, cu, cv);
            &&& n == 0 <==> !u && !v && !k
            &&& n == 3 <==> u && v
            &&& n == 2 <==> (u != v) && k
            &&& n == 1 <==> (u != v && !k) || (!u && !v && k)
        }),
{
}

/// A corner that all four blocks light alike has that light; blocks with no light at all do not
/// darken it, and no corner is darker than the darkest of the blocks that count, or lighter than
/// the lightest.
pub proof fn corners_take_the_light_in_front(
    world: &World,
    rules: &Rules,
    light: &Light,
    c: Pos,
    d: int,
    cu: bool,
    cv: bool,
    l: int,
)
    ensures
        ({
            let k = corner_rule(world, rules, light, c, d, cu, cv);
            let o = light.at(world, c.step(d));
            let u = light.at(world, beside_u(c, d, cu));
            let v = light.at(world, beside_v(c, d, cv));
            let x = light.at(world, diagonal(c, d, cu, cv));
            let same = (u == 0 || u == o) && (v == 0 || v == o) && (x == 0 || x == o);
            &&& same ==> k.sky == high(o) && k.block == low(o)
            &&& u == 0 && v == 0 && x == 0 ==> k.sky == high(o) && k.block == low(o)
            &&& high(o) >= l && (u == 0 || high(u) >= l) && (v == 0 || high(v) >= l) && (x == 0 || high(x) >= l) ==> k.sky >= l
            &&& high(o) <= l && (u == 0 || high(u) <= l) && (v == 0 || high(v) <= l) && (x == 0 || high(x) <= l) ==> k.sky <= l
            &&& low(o) >= l && (u == 0 || low(u) >= l) && (v == 0 || low(v) >= l) && (x == 0 || low(x) >= l) ==> k.block >= l
            &&& low(o) <= l && (u == 0 || low(u) <= l) && (v == 0 || low(v) <= l) && (x == 0 || low(x) <= l) ==> k.block <= l
        }),
{
}

} // verus!
