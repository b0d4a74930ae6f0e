//! What light is.
//!
//! A cell's block light is what the cell emits, or what its best neighbour gives
//! it: a neighbour's level less what the cell takes, at least 1. Sky light is the
//! same with no emission, except that light of 15 coming straight down into a cell
//! that takes nothing stays 15, and the sky above the world is 15. Outside the
//! world sideways and below is nothing.
use vstd::prelude::*;

use crate::lighting::world::{standard_emission, standard_opacity, Rules, World};
use crate::voxel::flood::{
    best_incoming, incoming, is_drops, is_levels, max, settled, settling_is_unique,
};
use crate::voxel::nibble::{halves, high, low};
use crate::voxel::shape::{Pos, Shape};

verus! {

/// What each cell takes from light that enters it, by some rules.
pub open spec fn opacities(world: &World, rules: &Rules) -> Seq<int> {
    Seq::new(world.blocks@.len(), |i: int| rules.takes(world.blocks@[i]))
}

/// What each cell emits, by some rules.
pub open spec fn emissions(world: &World, rules: &Rules) -> Seq<int> {
    Seq::new(world.blocks@.len(), |i: int| rules.emits(world.blocks@[i]))
}

/// What each cell takes, by the standard rules.
pub open spec fn standard_opacities(world: &World) -> Seq<int> {
    Seq::new(world.blocks@.len(), |i: int| standard_opacity(world.blocks@[i]))
}

/// What each cell emits, by the standard rules.
pub open spec fn standard_emissions(world: &World) -> Seq<int> {
    Seq::new(world.blocks@.len(), |i: int| standard_emission(world.blocks@[i]))
}

/// What light loses on entering each cell: at least 1.
pub open spec fn losses(opac: Seq<int>) -> Seq<int> {
    Seq::new(opac.len(), |i: int| max(1, opac[i]))
}

/// The block light of each cell.
pub open spec fn block_levels(light: Seq<u8>) -> Seq<int> {
    Seq::new(light.len(), |i: int| low(light[i]))
}

/// The sky light of each cell.
pub open spec fn sky_levels(light: Seq<u8>) -> Seq<int> {
    Seq::new(light.len(), |i: int| high(light[i]))
}

/// `f` is the block light.
pub open spec fn is_block_light(sh: Shape, opac: Seq<int>, emit: Seq<int>, f: Seq<int>) -> bool {
    settled(sh, emit, losses(opac), f)
}

/// What cell `i` gets from straight above.
pub open spec fn from_above(sh: Shape, opac: Seq<int>, f: Seq<int>, i: int) -> int {
    let q = sh.cell(i).step(3);
    let l = if q.y >= sh.ny * 16 {
        15
    } else {
        f[sh.place(q)]
    };
    if l == 15 && opac[i] == 0 {
        15
    } else {
        max(0, l - max(1, opac[i]))
    }
}

/// What cell `i` gets of the sky's light.
pub open spec fn sky_rule(sh: Shape, opac: Seq<int>, f: Seq<int>, i: int) -> int {
    let loss = losses(opac);
    max(
        max(
            max(incoming(sh, loss, f, i, 0), incoming(sh, loss, f, i, 1)),
            max(incoming(sh, loss, f, i, 2), from_above(sh, opac, f, i)),
        ),
        max(incoming(sh, loss, f, i, 4), incoming(sh, loss, f, i, 5)),
    )
}

/// `f` is the sky light.
pub open spec fn is_sky_light(sh: Shape, opac: Seq<int>, f: Seq<int>) -> bool {
    &&& is_levels(sh, f)
    &&& forall|i: int| 0 <= i < sh.count() ==> #[trigger] f[i] == sky_rule(sh, opac, f, i)
}

/// Light of 0 to 15, or what takes it.
pub open spec fn is_opacities(sh: Shape, opac: Seq<int>) -> bool {
    opac.len() == sh.count() && forall|i: int| 0 <= i < opac.len() ==> 0 <= #[trigger] opac[i] <= 15
}

/// The cell at `p` and every one above it take nothing.
pub open spec fn open_sky(sh: Shape, opac: Seq<int>, p: Pos) -> bool {
    forall|y: int| p.y <= y < sh.ny * 16 ==> opac[#[trigger] sh.place(Pos { y, ..p })] == 0
}

/// What cell `i` has of the sky's light before any floods: all of it under the open
/// sky, and in the top layer what the sky above gives.
pub open spec fn sky_seed(sh: Shape, opac: Seq<int>, i: int) -> int {
    let p = sh.cell(i);
    if open_sky(sh, opac, p) {
        15
    } else if p.y + 1 == sh.ny * 16 {
        max(0, 15 - max(1, opac[i]))
    } else {
        0
    }
}

/// What each cell has of the sky's light before any floods.
pub open spec fn sky_seeds(sh: Shape, opac: Seq<int>) -> Seq<int> {
    Seq::new(sh.count() as nat, |i: int| sky_seed(sh, opac, i))
}

/// A cell is under the open sky if it takes nothing and the cell above it is.
pub proof fn open_sky_step(sh: Shape, opac: Seq<int>, p: Pos)
    requires
        sh.wf(),
        sh.has(p),
    ensures
        p.y + 1 < sh.ny * 16 ==> (open_sky(sh, opac, p) <==> opac[sh.place(p)] == 0 && open_sky(sh, opac, p.step(3))),
        p.y + 1 == sh.ny * 16 ==> (open_sky(sh, opac, p) <==> opac[sh.place(p)] == 0),
{
    let q = p.step(3);
    assert(q == (Pos { y: p.y + 1, ..p }));
    assert(p == (Pos { y: p.y, ..p }));
    if open_sky(sh, opac, p) {
        assert(opac[sh.place(Pos { y: p.y, ..p })] == 0);
        assert forall|y: int| q.y <= y < sh.ny * 16 implies opac[#[trigger] sh.place(Pos { y, ..q })] == 0 by {
            assert((Pos { y, ..q }) == (Pos { y, ..p }));
            assert(opac[sh.place(Pos { y, ..p })] == 0);
        }
    }
    if opac[sh.place(p)] == 0 && (p.y + 1 < sh.ny * 16 ==> open_sky(sh, opac, q)) {
        assert forall|y: int| p.y <= y < sh.ny * 16 implies opac[#[trigger] sh.place(Pos { y, ..p })] == 0 by {
            if y == p.y {
                assert((Pos { y, ..p }) == p);
            } else {
                assert((Pos { y, ..q }) == (Pos { y, ..p }));
                assert(opac[sh.place(Pos { y, ..q })] == 0);
            }
        }
    }
}

/// Sky light is 15 exactly under the open sky.
proof fn full_sky_is_open(sh: Shape, opac: Seq<int>, f: Seq<int>, p: Pos)
    requires
        sh.wf(),
        is_opacities(sh, opac),
        is_sky_light(sh, opac, f),
        sh.has(p),
    ensures
        f[sh.place(p)] == 15 <==> open_sky(sh, opac, p),
    decreases sh.ny * 16 - p.y,
{
    let i = sh.place(p);
    let q = p.step(3);
    sh.place_round_trip(p);
    open_sky_step(sh, opac, p);
    assert(f[i] == sky_rule(sh, opac, f, i));
    assert(is_drops(sh, losses(opac)));
    incoming_is_less(sh, losses(opac), f, i);
    assert(f[i] == 15 <==> from_above(sh, opac, f, i) == 15);
    if p.y + 1 < sh.ny * 16 {
        assert(sh.has(q));
        full_sky_is_open(sh, opac, f, q);
        sh.place_round_trip(q);
        assert(f[sh.place(q)] <= 15);
    }
}

/// What comes from a neighbour is less than 15.
proof fn incoming_is_less(sh: Shape, drop: Seq<int>, f: Seq<int>, i: int)
    requires
        sh.wf(),
        is_levels(sh, f),
        is_drops(sh, drop),
        0 <= i < sh.count(),
    ensures
        forall|d: int| 0 <= d < 6 ==> 0 <= #[trigger] incoming(sh, drop, f, i, d) <= 14,
{
    assert forall|d: int| 0 <= d < 6 implies 0 <= #[trigger] incoming(sh, drop, f, i, d) <= 14 by {
        sh.next_and_back(i, d);
        match sh.next(i, d) {
            Some(j) => {
                assert(f[j] <= 15);
                assert(drop[i] >= 1);
            },
            None => {},
        }
    }
}

/// Sky light is what floods from the open sky.
pub proof fn sky_light_is_settled(sh: Shape, opac: Seq<int>, f: Seq<int>)
    requires
        sh.wf(),
        is_opacities(sh, opac),
    ensures
        is_sky_light(sh, opac, f) <==> settled(sh, sky_seeds(sh, opac), losses(opac), f),
{
    let seeds = sky_seeds(sh, opac);
    let loss = losses(opac);
    assert(is_drops(sh, loss));
    if is_sky_light(sh, opac, f) {
        assert forall|i: int| 0 <= i < sh.count() implies #[trigger] f[i] == max(seeds[i], best_incoming(sh, loss, f, i)) by {
            sh.cell_round_trip(i);
            let p = sh.cell(i);
            full_sky_is_open(sh, opac, f, p);
            if p.y + 1 < sh.ny * 16 {
                assert(sh.has(p.step(3)));
                full_sky_is_open(sh, opac, f, p.step(3));
            }
            one_rule(sh, opac, f, i);
            assert(f[i] == sky_rule(sh, opac, f, i));
        }
    }
    if settled(sh, seeds, loss, f) {
        assert forall|i: int| 0 <= i < sh.count() implies #[trigger] f[i] == sky_rule(sh, opac, f, i) by {
            sh.cell_round_trip(i);
            let p = sh.cell(i);
            settled_full_is_open(sh, opac, f, p);
            if p.y + 1 < sh.ny * 16 {
                assert(sh.has(p.step(3)));
                settled_full_is_open(sh, opac, f, p.step(3));
            }
            one_rule(sh, opac, f, i);
            assert(f[i] == max(seeds[i], best_incoming(sh, loss, f, i)));
        }
    }
}

proof fn settled_full_is_open(sh: Shape, opac: Seq<int>, f: Seq<int>, p: Pos)
    requires
        sh.wf(),
        is_opacities(sh, opac),
        settled(sh, sky_seeds(sh, opac), losses(opac), f),
        sh.has(p),
    ensures
        f[sh.place(p)] == 15 <==> open_sky(sh, opac, p),
{
    let i = sh.place(p);
    sh.place_round_trip(p);
    assert(is_drops(sh, losses(opac)));
    incoming_is_less(sh, losses(opac), f, i);
    assert(f[i] == max(sky_seeds(sh, opac)[i], best_incoming(sh, losses(opac), f, i)));
}

/// Where 15 is found exactly under the open sky, both rules say the same.
proof fn one_rule(sh: Shape, opac: Seq<int>, f: Seq<int>, i: int)
    requires
        sh.wf(),
        is_opacities(sh, opac),
        is_levels(sh, f),
        0 <= i < sh.count(),
        ({
            let p = sh.cell(i);
            &&& f[i] == 15 <==> open_sky(sh, opac, p)
            &&& p.y + 1 < sh.ny * 16 ==> (f[sh.place(p.step(3))] == 15 <==> open_sky(sh, opac, p.step(3)))
        }),
    ensures
        sky_rule(sh, opac, f, i) == max(sky_seeds(sh, opac)[i], best_incoming(sh, losses(opac), f, i)),
{
    let p = sh.cell(i);
    let q = p.step(3);
    let loss = losses(opac);
    sh.cell_round_trip(i);
    open_sky_step(sh, opac, p);
    assert(is_drops(sh, loss));
    incoming_is_less(sh, loss, f, i);
    let seed = sky_seeds(sh, opac)[i];
    assert(seed == sky_seed(sh, opac, i));
    if p.y + 1 < sh.ny * 16 {
        assert(sh.has(q));
        sh.place_round_trip(q);
        assert(sh.next(i, 3) == Some(sh.place(q)));
        if open_sky(sh, opac, p) {
            assert(from_above(sh, opac, f, i) == 15);
        } else {
            assert(from_above(sh, opac, f, i) == incoming(sh, loss, f, i, 3));
        }
    } else {
        assert(p.y + 1 == sh.ny * 16);
        assert(!sh.has(q));
        assert(incoming(sh, loss, f, i, 3) == 0);
        assert(from_above(sh, opac, f, i) == seed);
    }
}

/// A world has one block light.
pub proof fn block_light_is_unique(sh: Shape, opac: Seq<int>, emit: Seq<int>, f: Seq<int>, g: Seq<int>)
    requires
        sh.wf(),
        is_opacities(sh, opac),
        is_block_light(sh, opac, emit, f),
        is_block_light(sh, opac, emit, g),
    ensures
        f == g,
{
    assert(is_drops(sh, losses(opac)));
    settling_is_unique(sh, emit, losses(opac), f, g);
}

/// A world has one sky light.
pub proof fn sky_light_is_unique(sh: Shape, opac: Seq<int>, f: Seq<int>, g: Seq<int>)
    requires
        sh.wf(),
        is_opacities(sh, opac),
        is_sky_light(sh, opac, f),
        is_sky_light(sh, opac, g),
    ensures
        f == g,
{
    assert(is_drops(sh, losses(opac)));
    sky_light_is_settled(sh, opac, f);
    sky_light_is_settled(sh, opac, g);
    settling_is_unique(sh, sky_seeds(sh, opac), losses(opac), f, g);
}

/// `light` holds the light of a world: sky light in the high half of each byte and
/// block light in the low half.
pub open spec fn is_light(sh: Shape, opac: Seq<int>, emit: Seq<int>, light: Seq<u8>) -> bool {
    &&& light.len() == sh.count()
    &&& is_block_light(sh, opac, emit, block_levels(light))
    &&& is_sky_light(sh, opac, sky_levels(light))
}

/// A world has one light.
pub proof fn light_is_unique(sh: Shape, opac: Seq<int>, emit: Seq<int>, a: Seq<u8>, b: Seq<u8>)
    requires
        sh.wf(),
        is_opacities(sh, opac),
        is_light(sh, opac, emit, a),
        is_light(sh, opac, emit, b),
    ensures
        a == b,
{
    block_light_is_unique(sh, opac, emit, block_levels(a), block_levels(b));
    sky_light_is_unique(sh, opac, sky_levels(a), sky_levels(b));
    assert forall|i: int| 0 <= i < a.len() implies a[i] == b[i] by {
        assert(block_levels(a)[i] == block_levels(b)[i]);
        assert(sky_levels(a)[i] == sky_levels(b)[i]);
        halves(a[i]);
        halves(b[i]);
    }
    assert(a =~= b);
}

} // verus!
